use vstd::prelude::*;
use vstd::slice::slice_to_vec;
use vstd::string::*;
use crate::text::{chars_of, str_eq, push_all, string_from_chars, string_push};

verus! {

/// Mandatory generation systems.
#[derive(Debug, Clone, Copy, PartialEq, Eq, Structural)]
pub enum PromptKind {
    /// Informal statement only.
    TextOnly,
    /// Reference Rust code only.
    CodeOnly,
    /// Text + code concatenated without structure.
    NaiveConcat,
    /// Full structured method with extracted Rust summary.
    FullMethod,
}

/// Canonical name of a prompt kind.
pub open spec fn prompt_kind_name(k: PromptKind) -> Seq<char> {
    match k {
        PromptKind::TextOnly => "text_only"@,
        PromptKind::CodeOnly => "code_only"@,
        PromptKind::NaiveConcat => "naive_concat"@,
        PromptKind::FullMethod => "full_method"@,
    }
}

/// The prompt kind whose canonical name is `s`, if any.
pub open spec fn prompt_kind_from_name(s: Seq<char>) -> Option<PromptKind> {
    if s == "text_only"@ {
        Some(PromptKind::TextOnly)
    } else if s == "code_only"@ {
        Some(PromptKind::CodeOnly)
    } else if s == "naive_concat"@ {
        Some(PromptKind::NaiveConcat)
    } else if s == "full_method"@ {
        Some(PromptKind::FullMethod)
    } else {
        None
    }
}

impl PromptKind {
    /// Canonical snake_case name.
    pub fn as_str(self) -> (s: &'static str)
        ensures
            s@ == prompt_kind_name(self),
    {
        match self {
            PromptKind::TextOnly => "text_only",
            PromptKind::CodeOnly => "code_only",
            PromptKind::NaiveConcat => "naive_concat",
            PromptKind::FullMethod => "full_method",
        }
    }

    /// Parses the snake_case name; `None` for any other string.
    pub fn parse(s: &str) -> (res: Option<Self>)
        ensures
            res == prompt_kind_from_name(s@),
    {
        if str_eq(s, "text_only") {
            Some(PromptKind::TextOnly)
        } else if str_eq(s, "code_only") {
            Some(PromptKind::CodeOnly)
        } else if str_eq(s, "naive_concat") {
            Some(PromptKind::NaiveConcat)
        } else if str_eq(s, "full_method") {
            Some(PromptKind::FullMethod)
        } else {
            None
        }
    }
}

/// Parsing the canonical name of a prompt kind gives the kind back.
pub proof fn lemma_prompt_kind_round_trip(k: PromptKind)
    ensures
        prompt_kind_from_name(prompt_kind_name(k)) == Some(k),
{
    reveal_strlit("text_only");
    reveal_strlit("code_only");
    reveal_strlit("naive_concat");
    reveal_strlit("full_method");
    assert("text_only"@[0] != "code_only"@[0]);
    assert("naive_concat"@.len() != "text_only"@.len());
    assert("full_method"@.len() != "text_only"@.len());
    assert("naive_concat"@.len() != "full_method"@.len());
    assert("full_method"@.len() != "code_only"@.len());
    assert("naive_concat"@.len() != "code_only"@.len());
}

/// `a` comes strictly before `b` in lexicographic order.
pub open spec fn lex_lt(a: Seq<char>, b: Seq<char>) -> bool
    decreases a.len(),
{
    if b.len() == 0 {
        false
    } else if a.len() == 0 {
        true
    } else if a[0] != b[0] {
        a[0] < b[0]
    } else {
        lex_lt(a.drop_first(), b.drop_first())
    }
}

/// Lexicographic order is transitive.
pub proof fn lemma_lex_transitive(a: Seq<char>, b: Seq<char>, c: Seq<char>)
    requires
        lex_lt(a, b),
        lex_lt(b, c),
    ensures
        lex_lt(a, c),
    decreases a.len(),
{
    if a.len() > 0 && b.len() > 0 && c.len() > 0 && a[0] == b[0] && b[0] == c[0] {
        lemma_lex_transitive(a.drop_first(), b.drop_first(), c.drop_first());
    }
}

/// Lexicographic order is total: of two different sequences one comes first.
pub proof fn lemma_lex_trichotomy(a: Seq<char>, b: Seq<char>)
    ensures
        a == b || lex_lt(a, b) || lex_lt(b, a),
        !(lex_lt(a, b) && lex_lt(b, a)),
        !lex_lt(a, a),
    decreases a.len(),
{
    if a.len() > 0 && b.len() > 0 {
        lemma_lex_trichotomy(a.drop_first(), b.drop_first());
        if a[0] == b[0] && a.drop_first() == b.drop_first() {
            assert forall|k: int| 0 <= k < a.len() implies a[k] == b[k] by {
                if k > 0 {
                    assert(a[k] == a.drop_first()[k - 1]);
                    assert(b[k] == b.drop_first()[k - 1]);
                }
            }
            assert(a =~= b);
        }
        lemma_lex_trichotomy(a.drop_first(), a.drop_first());
    } else if a.len() > 0 {
        lemma_lex_trichotomy(a.drop_first(), a.drop_first());
    } else if b.len() == 0 {
        assert(a =~= b);
    }
}

/// Compares two character sequences lexicographically.
pub(crate) fn chars_lt(a: &[char], b: &[char]) -> (r: bool)
    ensures
        r == lex_lt(a@, b@),
{
    let mut i: usize = 0;
    assert(a@.skip(0) =~= a@ && b@.skip(0) =~= b@);
    while i < a.len() && i < b.len()
        invariant
            0 <= i <= a@.len(),
            i <= b@.len(),
            lex_lt(a@, b@) == lex_lt(a@.skip(i as int), b@.skip(i as int)),
        decreases a@.len() - i,
    {
        proof {
            assert(a@.skip(i as int)[0] == a@[i as int]);
            assert(b@.skip(i as int)[0] == b@[i as int]);
            assert(a@.skip(i as int).drop_first() =~= a@.skip(i + 1));
            assert(b@.skip(i as int).drop_first() =~= b@.skip(i + 1));
        }
        if a[i] != b[i] {
            return a[i] < b[i];
        }
        i = i + 1;
    }
    i < b.len()
}

/// Value stored for `k` among `entries`, if any.
pub open spec fn value_of(entries: Seq<(Seq<char>, Seq<char>)>, k: Seq<char>) -> Option<Seq<char>> {
    if exists|i: int| 0 <= i < entries.len() && #[trigger] entries[i].0 == k {
        Some(entries[choose|i: int| 0 <= i < entries.len() && #[trigger] entries[i].0 == k].1)
    } else {
        None
    }
}

/// Keys strictly increase along `entries`, and none occurs twice.
pub open spec fn keys_ordered(entries: Seq<(Seq<char>, Seq<char>)>) -> bool {
    &&& forall|i: int| 0 <= i < entries.len() - 1 ==> lex_lt(#[trigger] entries[i].0, entries[i + 1].0)
    &&& forall|i: int, j: int| 0 <= i < j < entries.len() ==> #[trigger] entries[i].0 != #[trigger] entries[j].0
}

/// With distinct keys, the value of the key at position `i` is the value there.
proof fn lemma_value_of_at(entries: Seq<(Seq<char>, Seq<char>)>, i: int)
    requires
        keys_ordered(entries),
        0 <= i < entries.len(),
    ensures
        value_of(entries, entries[i].0) == Some(entries[i].1),
{
    let k = entries[i].0;
    assert(entries[i].0 == k);
    let j = choose|j: int| 0 <= j < entries.len() && #[trigger] entries[j].0 == k;
    if j < i {
        assert(entries[j].0 != entries[i].0);
    } else if j > i {
        assert(entries[i].0 != entries[j].0);
    }
}

/// Placeholder values keyed by name, kept in increasing key order with each
/// key at most once. The entries live in a vector whose order and
/// uniqueness are stated and proved here: vstd's `BTreeMap` specification
/// holds only for keys known to obey its ordering laws, which `String`
/// keys are not.
#[derive(Debug, Clone)]
pub struct PromptContext {
    entries: Vec<(String, String)>,
}

impl PromptContext {
    /// Keys and values, in increasing key order.
    pub closed spec fn entries(&self) -> Seq<(Seq<char>, Seq<char>)> {
        self.entries@.map_values(|e: (String, String)| (e.0@, e.1@))
    }

    /// Keys strictly increase along the entries, so each key occurs once.
    pub open spec fn well_formed(&self) -> bool {
        keys_ordered(self.entries())
    }

    /// The value stored for `k`, if any.
    pub open spec fn get_spec(&self, k: Seq<char>) -> Option<Seq<char>> {
        value_of(self.entries(), k)
    }

    /// An empty context.
    pub fn new() -> (ctx: Self)
        ensures
            ctx.well_formed(),
            ctx.entries().len() == 0,
            forall|k: Seq<char>| ctx.get_spec(k) is None,
    {
        let ctx = PromptContext { entries: Vec::new() };
        assert(ctx.entries() =~= Seq::empty());
        ctx
    }

    /// Sets the value of `key`, replacing any earlier value, and hands the
    /// context back for chaining.
    pub fn insert(&mut self, key: &str, value: &str) -> (r: &mut Self)
        requires
            old(self).well_formed(),
        ensures
            r.well_formed(),
            forall|k: Seq<char>| #[trigger] r.get_spec(k) == if k == key@ { Some(value@) } else { old(self).get_spec(k) },
            r.entries().len() == old(self).entries().len() + if old(self).get_spec(key@) is Some { 0int } else { 1int },
            *final(self) == *final(r),
    {
        self.set_value(key, value);
        self
    }

    /// Sets the value of `key`, replacing any earlier value.
    #[verifier::spinoff_prover]
    #[verifier::rlimit(50)]
    fn set_value(&mut self, key: &str, value: &str)
        requires
            old(self).well_formed(),
        ensures
            final(self).well_formed(),
            forall|k: Seq<char>| #[trigger] final(self).get_spec(k) == if k == key@ { Some(value@) } else { old(self).get_spec(k) },
            final(self).entries().len() == old(self).entries().len()
                + if old(self).get_spec(key@) is Some { 0int } else { 1int },
    {
        let ghost old_e = self.entries();
        let kc = chars_of(key);
        let n = self.entries.len();
        let mut q: usize = 0;
        while q < n
            invariant_except_break
                n == self.entries@.len(),
                old_e == self.entries(),
                kc@ == key@,
                0 <= q <= n,
                forall|i: int| 0 <= i < q ==> #[trigger] old_e[i].0 != key@,
            ensures
                n == self.entries@.len(),
                old_e == self.entries(),
                kc@ == key@,
                0 <= q <= n,
                forall|i: int| 0 <= i < q ==> #[trigger] old_e[i].0 != key@,
                q < n ==> old_e[q as int].0 == key@,
            decreases n - q,
        {
            proof {
                assert(old_e[q as int].0 == self.entries@[q as int].0@);
            }
            if str_eq(self.entries[q].0.as_str(), key) {
                break;
            }
            q = q + 1;
        }
        if q < n {
            proof {
                assert(old_e[q as int].0 == key@);
            }
            self.entries.set(q, (key.to_owned(), value.to_owned()));
            proof {
                let new_e = self.entries();
                assert(new_e =~= old_e.update(q as int, (key@, value@)));
                lemma_value_of_at(old_e, q as int);
                assert forall|k: Seq<char>| #[trigger] value_of(new_e, k) == if k == key@ { Some(value@) } else { value_of(old_e, k) } by {
                    if k == key@ {
                        lemma_value_of_at(new_e, q as int);
                    } else if exists|i: int| 0 <= i < old_e.len() && #[trigger] old_e[i].0 == k {
                        let i = choose|i: int| 0 <= i < old_e.len() && #[trigger] old_e[i].0 == k;
                        lemma_value_of_at(old_e, i);
                        lemma_value_of_at(new_e, i);
                    } else {
                        assert forall|i: int| 0 <= i < new_e.len() implies #[trigger] new_e[i].0 != k by {
                            if i != q {
                                assert(new_e[i] == old_e[i]);
                            }
                        }
                    }
                }
            }
        } else {
            let mut p: usize = 0;
            while p < n
                invariant_except_break
                    n == self.entries@.len(),
                    old_e == self.entries(),
                    kc@ == key@,
                    0 <= p <= n,
                    forall|i: int| 0 <= i < n ==> #[trigger] old_e[i].0 != key@,
                    forall|i: int| 0 <= i < p ==> lex_lt(#[trigger] old_e[i].0, key@),
                ensures
                    n == self.entries@.len(),
                    old_e == self.entries(),
                    0 <= p <= n,
                    forall|i: int| 0 <= i < n ==> #[trigger] old_e[i].0 != key@,
                    forall|i: int| 0 <= i < p ==> lex_lt(#[trigger] old_e[i].0, key@),
                    p < n ==> !lex_lt(old_e[p as int].0, key@),
                decreases n - p,
            {
                let kp = chars_of(self.entries[p].0.as_str());
                proof {
                    assert(old_e[p as int].0 == self.entries@[p as int].0@);
                }
                if !chars_lt(&kp, &kc) {
                    break;
                }
                p = p + 1;
            }
            self.entries.insert(p, (key.to_owned(), value.to_owned()));
            proof {
                let new_e = self.entries();
                assert(value_of(old_e, key@) is None);
                assert(new_e =~= old_e.insert(p as int, (key@, value@)));
                if p < n {
                    lemma_lex_trichotomy(old_e[p as int].0, key@);
                }
                assert forall|i: int| 0 <= i < new_e.len() - 1 implies lex_lt(#[trigger] new_e[i].0, new_e[i + 1].0) by {
                    if i < p - 1 {
                        assert(new_e[i] == old_e[i] && new_e[i + 1] == old_e[i + 1]);
                    } else if i == p - 1 {
                        assert(new_e[i] == old_e[i]);
                    } else if i == p {
                        assert(new_e[i + 1] == old_e[i]);
                    } else {
                        assert(new_e[i] == old_e[i - 1] && new_e[i + 1] == old_e[i]);
                    }
                }
                assert forall|i: int, j: int| 0 <= i < j < new_e.len() implies #[trigger] new_e[i].0 != #[trigger] new_e[j].0 by {
                    if i < p && j < p {
                        assert(new_e[i] == old_e[i] && new_e[j] == old_e[j]);
                    } else if i < p && j == p {
                        assert(new_e[i] == old_e[i]);
                    } else if i < p {
                        assert(new_e[i] == old_e[i] && new_e[j] == old_e[j - 1]);
                    } else if i == p {
                        assert(new_e[j] == old_e[j - 1]);
                    } else {
                        assert(new_e[i] == old_e[i - 1] && new_e[j] == old_e[j - 1]);
                    }
                }
                assert forall|k: Seq<char>| #[trigger] value_of(new_e, k) == if k == key@ { Some(value@) } else { value_of(old_e, k) } by {
                    if k == key@ {
                        assert(new_e[p as int].0 == key@);
                        lemma_value_of_at(new_e, p as int);
                    } else if exists|i: int| 0 <= i < old_e.len() && #[trigger] old_e[i].0 == k {
                        let i = choose|i: int| 0 <= i < old_e.len() && #[trigger] old_e[i].0 == k;
                        lemma_value_of_at(old_e, i);
                        let ni = if i < p { i } else { i + 1 };
                        assert(new_e[ni] == old_e[i]);
                        lemma_value_of_at(new_e, ni);
                    } else {
                        assert forall|i: int| 0 <= i < new_e.len() implies #[trigger] new_e[i].0 != k by {
                            if i < p {
                                assert(new_e[i] == old_e[i]);
                            } else if i > p {
                                assert(new_e[i] == old_e[i - 1]);
                            }
                        }
                    }
                }
            }
        }
    }

    /// The (key, value) pairs in increasing key order.
    pub fn iter(&self) -> (out: Vec<(String, String)>)
        ensures
            out@.map_values(|e: (String, String)| (e.0@, e.1@)) == self.entries(),
    {
        let mut out: Vec<(String, String)> = Vec::new();
        let mut i: usize = 0;
        while i < self.entries.len()
            invariant
                0 <= i <= self.entries@.len(),
                out@.len() == i,
                forall|j: int| 0 <= j < i ==> (#[trigger] out@[j]).0@ == self.entries@[j].0@
                    && out@[j].1@ == self.entries@[j].1@,
            decreases self.entries@.len() - i,
        {
            let k = self.entries[i].0.clone();
            let v = self.entries[i].1.clone();
            out.push((k, v));
            i = i + 1;
        }
        assert(out@.map_values(|e: (String, String)| (e.0@, e.1@)) =~= self.entries());
        out
    }

    /// Number of entries.
    pub fn len(&self) -> (n: usize)
        ensures
            n == self.entries().len(),
    {
        self.entries.len()
    }

    /// Whether there are no entries.
    pub fn is_empty(&self) -> (b: bool)
        ensures
            b == (self.entries().len() == 0),
    {
        self.entries.len() == 0
    }

    /// Value stored for the key `cs[from..to]`.
    fn get_by_chars(&self, cs: &[char], from: usize, to: usize) -> (res: Option<&String>)
        requires
            self.well_formed(),
            from <= to <= cs@.len(),
        ensures
            match res {
                Some(v) => value_of(self.entries(), cs@.subrange(from as int, to as int)) == Some(v@),
                None => value_of(self.entries(), cs@.subrange(from as int, to as int)) is None,
            },
    {
        let ghost k = cs@.subrange(from as int, to as int);
        let ghost e = self.entries();
        let mut j: usize = 0;
        while j < self.entries.len()
            invariant
                e == self.entries(),
                keys_ordered(e),
                from <= to <= cs@.len(),
                k == cs@.subrange(from as int, to as int),
                0 <= j <= self.entries@.len(),
                forall|i: int| 0 <= i < j ==> #[trigger] e[i].0 != k,
            decreases self.entries@.len() - j,
        {
            let kc = chars_of(self.entries[j].0.as_str());
            proof {
                assert(e[j as int].0 == self.entries@[j as int].0@);
            }
            if chars_eq_range(kc.as_slice(), cs, from, to) {
                proof {
                    lemma_value_of_at(e, j as int);
                }
                return Some(&self.entries[j].1);
            }
            j = j + 1;
        }
        None
    }
}

/// `a` equals `b[from..to]`.
fn chars_eq_range(a: &[char], b: &[char], from: usize, to: usize) -> (r: bool)
    requires
        from <= to <= b@.len(),
    ensures
        r == (a@ == b@.subrange(from as int, to as int)),
{
    if a.len() != to - from {
        return false;
    }
    let mut i: usize = 0;
    while i < a.len()
        invariant
            a@.len() == to - from,
            from <= to <= b@.len(),
            0 <= i <= a@.len(),
            forall|j: int| 0 <= j < i ==> a@[j] == b@[from + j],
        decreases a@.len() - i,
    {
        if a[i] != b[from + i] {
            assert(b@.subrange(from as int, to as int)[i as int] == b@[from + i]);
            return false;
        }
        i = i + 1;
    }
    assert(a@ =~= b@.subrange(from as int, to as int));
    true
}

/// Rendering of `cs[i..]`: each `{{key}}` whose key is in `entries` becomes
/// its value; every other character is copied as it is.
pub open spec fn render_from(cs: Seq<char>, entries: Seq<(Seq<char>, Seq<char>)>, i: int) -> Seq<char>
    decreases cs.len() - i,
{
    if i < 0 || i >= cs.len() {
        Seq::empty()
    } else {
        let sub = if i + 1 < cs.len() && cs[i] == '{' && cs[i + 1] == '{' {
            match close_chars(cs, i + 2) {
                Some(end) => value_of(entries, cs.subrange(i + 2, end)),
                None => None,
            }
        } else {
            None
        };
        match sub {
            Some(v) => {
                let end = close_chars(cs, i + 2)->0;
                if end + 2 > i && end + 2 <= cs.len() {
                    v + render_from(cs, entries, end + 2)
                } else {
                    Seq::empty()
                }
            },
            None => seq![cs[i]] + render_from(cs, entries, i + 1),
        }
    }
}

/// No placeholder of `cs[i..]` names a key of `entries`.
pub open spec fn no_known_placeholder(cs: Seq<char>, entries: Seq<(Seq<char>, Seq<char>)>, i: int) -> bool {
    forall|j: int| #![trigger cs[j]] i <= j && j + 1 < cs.len() && cs[j] == '{' && cs[j + 1] == '{'
        && close_chars(cs, j + 2) is Some ==> value_of(entries, cs.subrange(j + 2, close_chars(cs, j + 2)->0)) is None
}

/// Rendering text in which no placeholder names a known key gives the text
/// back unchanged: only placeholders with a value are substituted.
pub proof fn lemma_render_keeps_other_text(cs: Seq<char>, entries: Seq<(Seq<char>, Seq<char>)>, i: int)
    requires
        0 <= i <= cs.len(),
        no_known_placeholder(cs, entries, i),
    ensures
        render_from(cs, entries, i) == cs.skip(i),
    decreases cs.len() - i,
{
    if i < cs.len() {
        assert(no_known_placeholder(cs, entries, i + 1)) by {
            assert forall|j: int| #![trigger cs[j]] i + 1 <= j && j + 1 < cs.len() && cs[j] == '{' && cs[j + 1] == '{'
                && close_chars(cs, j + 2) is Some implies value_of(entries, cs.subrange(j + 2, close_chars(cs, j + 2)->0)) is None by {
                assert(i <= j);
            }
        }
        if i + 1 < cs.len() && cs[i] == '{' && cs[i + 1] == '{' && close_chars(cs, i + 2) is Some {
            assert(value_of(entries, cs.subrange(i + 2, close_chars(cs, i + 2)->0)) is None);
        }
        lemma_render_keeps_other_text(cs, entries, i + 1);
        assert(cs.skip(i) =~= seq![cs[i]] + cs.skip(i + 1));
    } else {
        assert(cs.skip(i) =~= Seq::<char>::empty());
    }
}

/// Substitutes every `{{key}}` of `body` with the context's value for `key`,
/// scanning left to right; unknown placeholders and all other text are left
/// as they are.
pub fn render(body: &str, ctx: &PromptContext) -> (out: String)
    requires
        ctx.well_formed(),
    ensures
        out@ == render_from(body@, ctx.entries(), 0),
{
    let cs = chars_of(body);
    let ghost c = cs@;
    let mut out = String::new();
    let mut i: usize = 0;
    while i < cs.len()
        invariant
            c == cs@,
            ctx.well_formed(),
            0 <= i <= c.len(),
            out@ + render_from(c, ctx.entries(), i as int) == render_from(c, ctx.entries(), 0),
        decreases c.len() - i,
    {
        let mut done = false;
        if i + 1 < cs.len() && cs[i] == '{' && cs[i + 1] == '{' {
            let close = find_close_chars(cs.as_slice(), i + 2);
            proof {
                lemma_close_chars_bounds(c, i + 2);
            }
            if let Some(end) = close {
                let found = ctx.get_by_chars(cs.as_slice(), i + 2, end);
                if let Some(v) = found {
                    let ghost prev = out@;
                    push_all(&mut out, v.as_str());
                    proof {
                        assert(render_from(c, ctx.entries(), i as int) == v@ + render_from(c, ctx.entries(), end + 2));
                        assert(out@ + render_from(c, ctx.entries(), end + 2) =~= prev + (v@ + render_from(c, ctx.entries(), end + 2)));
                    }
                    i = end + 2;
                    done = true;
                }
            }
        }
        if !done {
            let ch = cs[i];
            let ghost prev = out@;
            string_push(&mut out, ch);
            proof {
                assert(render_from(c, ctx.entries(), i as int) == seq![ch] + render_from(c, ctx.entries(), i + 1));
                assert(out@ + render_from(c, ctx.entries(), i + 1) =~= prev + (seq![ch] + render_from(c, ctx.entries(), i + 1)));
            }
            i = i + 1;
        }
    }
    proof {
        assert(out@ + render_from(c, ctx.entries(), i as int) =~= out@);
    }
    out
}

/// First position `j >= from` where `}}` starts in a character sequence.
pub open spec fn close_chars(cs: Seq<char>, from: int) -> Option<int>
    decreases cs.len() - from,
{
    if from < 0 || from + 1 >= cs.len() {
        None
    } else if cs[from] == '}' && cs[from + 1] == '}' {
        Some(from)
    } else {
        close_chars(cs, from + 1)
    }
}

/// `close_chars` only finds positions at or after its start.
proof fn lemma_close_chars_bounds(cs: Seq<char>, from: int)
    ensures
        close_chars(cs, from) matches Some(j) ==> from <= j && j + 1 < cs.len(),
    decreases cs.len() - from,
{
    if from >= 0 && from + 1 < cs.len() && !(cs[from] == '}' && cs[from + 1] == '}') {
        lemma_close_chars_bounds(cs, from + 1);
    }
}

/// Keys of the `{{key}}` placeholders in `cs[i..]`, scanning left to right.
pub open spec fn placeholders_from(cs: Seq<char>, i: int) -> Seq<Seq<char>>
    decreases cs.len() - i,
{
    if i < 0 || i + 1 >= cs.len() {
        Seq::empty()
    } else if cs[i] == '{' && cs[i + 1] == '{' && close_chars(cs, i + 2) is Some
        && close_chars(cs, i + 2)->0 + 2 > i && close_chars(cs, i + 2)->0 + 2 <= cs.len() {
        let end = close_chars(cs, i + 2)->0;
        seq![cs.subrange(i + 2, end)] + placeholders_from(cs, end + 2)
    } else {
        placeholders_from(cs, i + 1)
    }
}

/// Finds the first `}}` at or after `from`.
fn find_close_chars(cs: &[char], from: usize) -> (r: Option<usize>)
    ensures
        match r {
            Some(j) => close_chars(cs@, from as int) == Some(j as int),
            None => close_chars(cs@, from as int) is None,
        },
{
    let mut i = from;
    while i < cs.len() && i + 1 < cs.len()
        invariant
            from <= i,
            close_chars(cs@, from as int) == close_chars(cs@, i as int),
        decreases cs@.len() - i,
    {
        if cs[i] == '}' && cs[i + 1] == '}' {
            return Some(i);
        }
        i = i + 1;
    }
    None
}

/// The characters `cs[from..to]`.
fn sub_chars(cs: &[char], from: usize, to: usize) -> (out: Vec<char>)
    requires
        from <= to <= cs@.len(),
    ensures
        out@ == cs@.subrange(from as int, to as int),
{
    let mut out: Vec<char> = Vec::new();
    let mut i = from;
    while i < to
        invariant
            from <= i <= to <= cs@.len(),
            out@ == cs@.subrange(from as int, i as int),
        decreases to - i,
    {
        out.push(cs[i]);
        proof {
            assert(cs@.subrange(from as int, i + 1) == cs@.subrange(from as int, i as int).push(cs@[i as int]));
        }
        i = i + 1;
    }
    out
}

/// The strings' characters, in order.
pub open spec fn string_views(v: Seq<String>) -> Seq<Seq<char>> {
    v.map_values(|s: String| s@)
}

/// Strictly increasing in lexicographic order, with no repeated entry.
pub open spec fn sorted_unique(v: Seq<Seq<char>>) -> bool {
    &&& forall|i: int| 0 <= i < v.len() - 1 ==> lex_lt(#[trigger] v[i], v[i + 1])
    &&& forall|i: int, j: int| 0 <= i < j < v.len() ==> #[trigger] v[i] != #[trigger] v[j]
}

/// Adds `key` to a sorted list without repeats, keeping it sorted and without
/// repeats.
pub(crate) fn insert_sorted_unique(out: &mut Vec<String>, key: String)
    requires
        sorted_unique(string_views(old(out)@)),
    ensures
        sorted_unique(string_views(final(out)@)),
        string_views(final(out)@).to_set() == string_views(old(out)@).to_set().insert(key@),
{
    let ghost old_v = string_views(out@);
    let kc = chars_of(key.as_str());
    let n = out.len();
    let mut q: usize = 0;
    while q < n
        invariant_except_break
            n == out@.len(),
            old_v == string_views(out@),
            0 <= q <= n,
            forall|i: int| 0 <= i < q ==> #[trigger] old_v[i] != key@,
        ensures
            n == out@.len(),
            old_v == string_views(out@),
            0 <= q <= n,
            forall|i: int| 0 <= i < q ==> #[trigger] old_v[i] != key@,
            q < n ==> old_v[q as int] == key@,
        decreases n - q,
    {
        proof {
            assert(old_v[q as int] == out@[q as int]@);
        }
        if str_eq(out[q].as_str(), key.as_str()) {
            break;
        }
        q = q + 1;
    }
    if q < n {
        proof {
            assert(old_v.to_set() =~= old_v.to_set().insert(key@)) by {
                assert(old_v.contains(key@));
            }
        }
        return;
    }
    let mut p: usize = 0;
    while p < n
        invariant_except_break
            n == out@.len(),
            old_v == string_views(out@),
            kc@ == key@,
            0 <= p <= n,
            forall|i: int| 0 <= i < n ==> #[trigger] old_v[i] != key@,
            forall|i: int| 0 <= i < p ==> lex_lt(#[trigger] old_v[i], key@),
        ensures
            n == out@.len(),
            old_v == string_views(out@),
            0 <= p <= n,
            forall|i: int| 0 <= i < n ==> #[trigger] old_v[i] != key@,
            forall|i: int| 0 <= i < p ==> lex_lt(#[trigger] old_v[i], key@),
            p < n ==> !lex_lt(old_v[p as int], key@),
        decreases n - p,
    {
        let kp = chars_of(out[p].as_str());
        proof {
            assert(old_v[p as int] == out@[p as int]@);
        }
        if !chars_lt(&kp, &kc) {
            break;
        }
        p = p + 1;
    }
    let ghost key_view = key@;
    out.insert(p, key);
    proof {
        let new_v = string_views(out@);
        assert(new_v =~= old_v.insert(p as int, key_view));
        if p < n {
            lemma_lex_trichotomy(old_v[p as int], key_view);
        }
        lemma_insert_sorted_unique(old_v, p as int, key_view);
        lemma_insert_to_set(old_v, p as int, key_view);
    }
}

/// Inserting a new key at its place keeps a list sorted and without repeats.
#[verifier::spinoff_prover]
#[verifier::rlimit(40)]
proof fn lemma_insert_sorted_unique(old_v: Seq<Seq<char>>, p: int, key: Seq<char>)
    requires
        sorted_unique(old_v),
        0 <= p <= old_v.len(),
        forall|i: int| 0 <= i < old_v.len() ==> #[trigger] old_v[i] != key,
        forall|i: int| 0 <= i < p ==> lex_lt(#[trigger] old_v[i], key),
        p < old_v.len() ==> lex_lt(key, old_v[p]),
    ensures
        sorted_unique(old_v.insert(p, key)),
{
    let new_v = old_v.insert(p, key);
    assert forall|i: int| 0 <= i < new_v.len() - 1 implies lex_lt(#[trigger] new_v[i], new_v[i + 1]) by {
        if i < p - 1 {
            assert(new_v[i] == old_v[i] && new_v[i + 1] == old_v[i + 1]);
        } else if i == p - 1 {
            assert(new_v[i] == old_v[i]);
        } else if i == p {
            assert(new_v[i + 1] == old_v[i]);
        } else {
            assert(new_v[i] == old_v[i - 1] && new_v[i + 1] == old_v[i]);
        }
    }
    assert forall|i: int, j: int| 0 <= i < j < new_v.len() implies #[trigger] new_v[i] != #[trigger] new_v[j] by {
        if i < p && j < p {
            assert(new_v[i] == old_v[i] && new_v[j] == old_v[j]);
        } else if i < p && j == p {
            assert(new_v[i] == old_v[i]);
        } else if i < p {
            assert(new_v[i] == old_v[i] && new_v[j] == old_v[j - 1]);
        } else if i == p {
            assert(new_v[j] == old_v[j - 1]);
        } else {
            assert(new_v[i] == old_v[i - 1] && new_v[j] == old_v[j - 1]);
        }
    }
}

/// Inserting an entry adds it to the set of entries.
pub(crate) proof fn lemma_insert_to_set(old_v: Seq<Seq<char>>, p: int, key: Seq<char>)
    requires
        0 <= p <= old_v.len(),
    ensures
        old_v.insert(p, key).to_set() == old_v.to_set().insert(key),
{
    let new_v = old_v.insert(p, key);
    assert forall|x: Seq<char>| new_v.contains(x) <==> old_v.contains(x) || x == key by {
        if new_v.contains(x) {
            let i = choose|i: int| 0 <= i < new_v.len() && new_v[i] == x;
            if i < p {
                assert(old_v[i] == x);
            } else if i > p {
                assert(old_v[i - 1] == x);
            }
        }
        if old_v.contains(x) {
            let i = choose|i: int| 0 <= i < old_v.len() && old_v[i] == x;
            if i < p {
                assert(new_v[i] == x);
            } else {
                assert(new_v[i + 1] == x);
            }
        }
        if x == key {
            assert(new_v[p] == x);
        }
    }
    assert(new_v.to_set() =~= old_v.to_set().insert(key));
}

/// The entries of `seq![k] + t` are `k` and those of `t`.
proof fn lemma_cons_to_set(k: Seq<char>, t: Seq<Seq<char>>)
    ensures
        (seq![k] + t).to_set() == t.to_set().insert(k),
{
    lemma_insert_to_set(t, 0, k);
    assert(seq![k] + t =~= t.insert(0, k));
}

/// Distinct keys of the `{{key}}` placeholders left in `s`, in increasing
/// order.
pub fn find_unresolved(s: &str) -> (out: Vec<String>)
    ensures
        sorted_unique(string_views(out@)),
        string_views(out@).to_set() == placeholders_from(s@, 0).to_set(),
{
    let cs = chars_of(s);
    let ghost c = cs@;
    let mut out: Vec<String> = Vec::new();
    let mut i: usize = 0;
    proof {
        assert(string_views(out@) =~= Seq::<Seq<char>>::empty());
    }
    while i < cs.len() && i + 1 < cs.len()
        invariant
            c == cs@,
            c == s@,
            0 <= i <= c.len(),
            sorted_unique(string_views(out@)),
            string_views(out@).to_set() + placeholders_from(c, i as int).to_set() == placeholders_from(c, 0).to_set(),
        decreases c.len() - i,
    {
        let mut advanced = false;
        if cs[i] == '{' && cs[i + 1] == '{' {
            let close = find_close_chars(&cs, i + 2);
            proof {
                lemma_close_chars_bounds(c, i + 2);
            }
            if let Some(end) = close {
                let key_chars = sub_chars(&cs, i + 2, end);
                let key = string_from_chars(&key_chars);
                let ghost before = string_views(out@);
                insert_sorted_unique(&mut out, key);
                proof {
                    let k = c.subrange(i + 2, end as int);
                    assert(placeholders_from(c, i as int) == seq![k] + placeholders_from(c, end + 2));
                    lemma_cons_to_set(k, placeholders_from(c, end + 2));
                    assert(string_views(out@).to_set() + placeholders_from(c, end + 2).to_set()
                        =~= placeholders_from(c, 0).to_set());
                }
                i = end + 2;
                advanced = true;
            }
        }
        if !advanced {
            proof {
                assert(placeholders_from(c, i as int) == placeholders_from(c, i + 1));
            }
            i = i + 1;
        }
    }
    proof {
        assert(placeholders_from(c, i as int) =~= Seq::<Seq<char>>::empty());
        assert(string_views(out@).to_set() + Seq::<Seq<char>>::empty().to_set() =~= string_views(out@).to_set());
    }
    out
}

/// Errors produced while rendering templates.
#[derive(Debug)]
pub enum PromptError {
    /// Declared `system_id` inside a config does not match the expected
    /// identifier derived from the file stem.
    SystemIdMismatch {
        /// Offending path.
        path: String,
        /// Declared system id.
        declared: String,
        /// Expected system id.
        expected: String,
    },
    /// Rendering left one or more unresolved placeholders.
    UnresolvedPlaceholders(Vec<String>),
}

/// Renders strictly: fails with the sorted, distinct unresolved keys when any
/// `{{key}}` placeholder remains after substitution.
pub fn render_strict(body: &str, ctx: &PromptContext) -> (res: Result<String, PromptError>)
    requires
        ctx.well_formed(),
    ensures
        match res {
            Ok(out) => out@ == render_from(body@, ctx.entries(), 0)
                && placeholders_from(out@, 0).len() == 0,
            Err(PromptError::UnresolvedPlaceholders(keys)) => {
                let r = render_from(body@, ctx.entries(), 0);
                &&& placeholders_from(r, 0).len() > 0
                &&& sorted_unique(string_views(keys@))
                &&& string_views(keys@).to_set() == placeholders_from(r, 0).to_set()
            },
            Err(_) => false,
        },
{
    let out = render(body, ctx);
    let unresolved = find_unresolved(out.as_str());
    if unresolved.len() == 0 {
        proof {
            let p = placeholders_from(out@, 0);
            if p.len() > 0 {
                assert(p.to_set().contains(p[0]));
                assert(string_views(unresolved@) =~= Seq::<Seq<char>>::empty());
                assert(string_views(unresolved@).to_set().contains(p[0]));
            }
        }
        Ok(out)
    } else {
        proof {
            let p = placeholders_from(out@, 0);
            let v = string_views(unresolved@);
            assert(v.to_set().contains(v[0]));
            if p.len() == 0 {
                assert(p.to_set() =~= Set::<Seq<char>>::empty());
            }
        }
        Err(PromptError::UnresolvedPlaceholders(unresolved))
    }
}

/// A loaded prompt template.
#[derive(Debug, Clone)]
pub struct PromptTemplate {
    /// Schema version constant.
    pub schema_version: String,
    /// Canonical `system_id` (e.g. `full_method_v1`).
    pub system_id: String,
    /// Template kind.
    pub kind: PromptKind,
    /// Template version string (e.g. `v1`).
    pub version: String,
    /// Raw template body with `{{placeholder}}` markers.
    pub body: String,
}

impl PromptTemplate {
    /// Builds a template under the current schema version.
    pub fn new(system_id: &str, kind: PromptKind, version: &str, body: &str) -> (t: Self)
        ensures
            t.schema_version@ == "schema_v1"@,
            t.system_id@ == system_id@,
            t.kind == kind,
            t.version@ == version@,
            t.body@ == body@,
    {
        PromptTemplate {
            schema_version: default_schema_version(),
            system_id: system_id.to_owned(),
            kind,
            version: version.to_owned(),
            body: body.to_owned(),
        }
    }

    /// Renders the body with `ctx`; missing placeholders stay as they are.
    pub fn render(&self, ctx: &PromptContext) -> (out: String)
        requires
            ctx.well_formed(),
        ensures
            out@ == render_from(self.body@, ctx.entries(), 0),
    {
        render(self.body.as_str(), ctx)
    }

    /// Renders strictly: any unresolved placeholder is an error.
    pub fn render_strict(&self, ctx: &PromptContext) -> (res: Result<String, PromptError>)
        requires
            ctx.well_formed(),
        ensures
            match res {
                Ok(out) => out@ == render_from(self.body@, ctx.entries(), 0)
                    && placeholders_from(out@, 0).len() == 0,
                Err(PromptError::UnresolvedPlaceholders(keys)) => {
                    let r = render_from(self.body@, ctx.entries(), 0);
                    &&& placeholders_from(r, 0).len() > 0
                    &&& sorted_unique(string_views(keys@))
                    &&& string_views(keys@).to_set() == placeholders_from(r, 0).to_set()
                },
                Err(_) => false,
            },
    {
        render_strict(self.body.as_str(), ctx)
    }
}

/// The schema version a template has when its file names none.
pub fn default_schema_version() -> (v: String)
    ensures
        v@ == "schema_v1"@,
{
    "schema_v1".to_owned()
}

impl PromptTemplate {
    /// Accepts a template read from `path` when the file's stem (if it has
    /// one) is the template's declared `system_id`.
    pub fn accept_for_stem(self, path: &str, stem: Option<&str>) -> (res: Result<PromptTemplate, PromptError>)
        ensures
            match stem {
                Some(st) => if st@ == self.system_id@ {
                    res == Ok::<PromptTemplate, PromptError>(self)
                } else {
                    res matches Err(PromptError::SystemIdMismatch { path: p, declared, expected })
                        && p@ == path@ && declared@ == self.system_id@ && expected@ == st@
                },
                None => res == Ok::<PromptTemplate, PromptError>(self),
            },
    {
        match stem {
            Some(st) => {
                if str_eq(st, self.system_id.as_str()) {
                    Ok(self)
                } else {
                    let declared = string_from_chars(&chars_of(self.system_id.as_str()));
                    Err(PromptError::SystemIdMismatch {
                        path: string_from_chars(&chars_of(path)),
                        declared,
                        expected: string_from_chars(&chars_of(st)),
                    })
                }
            },
            None => Ok(self),
        }
    }
}

/// The placeholder values a prompt of kind `kind` is built from, each under
/// its placeholder name: text-only has the informal statement; code-only the
/// reference code; naive concatenation both; the full method the problem
/// summary (the informal statement), the semantic units, the Rust summary and
/// the Lean scaffold.
pub open spec fn context_value(
    kind: PromptKind,
    k: Seq<char>,
    informal: Seq<char>,
    code: Seq<char>,
    scaffold: Seq<char>,
    units: Seq<char>,
    summary: Seq<char>,
) -> Option<Seq<char>> {
    match kind {
        PromptKind::TextOnly => if k == "informal_statement"@ { Some(informal) } else { None },
        PromptKind::CodeOnly => if k == "reference_rs"@ { Some(code) } else { None },
        PromptKind::NaiveConcat => if k == "reference_rs"@ {
            Some(code)
        } else if k == "informal_statement"@ {
            Some(informal)
        } else {
            None
        },
        PromptKind::FullMethod => if k == "lean_scaffold"@ {
            Some(scaffold)
        } else if k == "rust_summary"@ {
            Some(summary)
        } else if k == "semantic_units"@ {
            Some(units)
        } else if k == "problem_summary"@ {
            Some(informal)
        } else {
            None
        },
    }
}

/// The placeholder context for a prompt of kind `kind`, from the texts of an
/// instance (a text that could not be read is passed as empty).
pub fn build_context(
    kind: PromptKind,
    informal_statement: &str,
    reference_rs: &str,
    lean_scaffold: &str,
    semantic_units: &str,
    rust_summary: &str,
) -> (ctx: PromptContext)
    ensures
        ctx.well_formed(),
        forall|k: Seq<char>| #[trigger] ctx.get_spec(k) == context_value(kind, k, informal_statement@,
            reference_rs@, lean_scaffold@, semantic_units@, rust_summary@),
{
    let mut ctx = PromptContext::new();
    match kind {
        PromptKind::TextOnly => {
            ctx.insert("informal_statement", informal_statement);
        },
        PromptKind::CodeOnly => {
            ctx.insert("reference_rs", reference_rs);
        },
        PromptKind::NaiveConcat => {
            ctx.insert("informal_statement", informal_statement).insert("reference_rs", reference_rs);
        },
        PromptKind::FullMethod => {
            ctx.insert("problem_summary", informal_statement)
                .insert("semantic_units", semantic_units)
                .insert("rust_summary", rust_summary)
                .insert("lean_scaffold", lean_scaffold);
        },
    }
    ctx
}

} // verus!
