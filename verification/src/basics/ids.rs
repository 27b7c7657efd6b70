use vstd::prelude::*;
use crate::basics::error::CoreError;
use crate::basics::grammar::{is_lower, is_digit, is_word, digits_in, lowers_in, words_in, lower_char, digit_char, word_char, all_digits, all_words};
use crate::text::chars_of;

verus! {

/// `s` matches `[a-z][a-z0-9]*(?:_[a-z0-9]+)*`: a lowercase letter, then
/// lowercase letters, digits and underscores, with no two underscores in a row
/// and no underscore at the end.
pub open spec fn is_snake_word(s: Seq<char>) -> bool {
    &&& s.len() > 0
    &&& is_lower(s[0])
    &&& words_in(s, 0, s.len() as int)
    &&& s.last() != '_'
    &&& forall|i: int| 0 <= i < s.len() - 1 ==> !(#[trigger] s[i] == '_' && s[i + 1] == '_')
}

/// Instance id, pattern `[a-z][a-z0-9]*(?:_[a-z0-9]+)*_[0-9]{3}`.
pub open spec fn is_instance_id(s: Seq<char>) -> bool {
    &&& s.len() >= 5
    &&& is_snake_word(s.take(s.len() - 4))
    &&& s[s.len() - 4] == '_'
    &&& digits_in(s, s.len() - 3, s.len() as int)
}

/// Obligation id, pattern `obl_[0-9]{3}`.
pub open spec fn is_obligation_id(s: Seq<char>) -> bool {
    &&& s.len() == 7
    &&& s[0] == 'o' && s[1] == 'b' && s[2] == 'l' && s[3] == '_'
    &&& digits_in(s, 4, 7)
}

/// Semantic-unit id, pattern `SU[0-9]+`.
pub open spec fn is_semantic_unit_id(s: Seq<char>) -> bool {
    &&& s.len() >= 3
    &&& s[0] == 'S' && s[1] == 'U'
    &&& digits_in(s, 2, s.len() as int)
}

/// `s` matches `[a-z][a-z0-9_]*_[a-z]+`.
pub open spec fn is_word_then_letters(s: Seq<char>) -> bool {
    exists|j: int| 1 <= j < s.len() - 1 && #[trigger] s[j] == '_' && is_lower(s[0])
        && words_in(s, 1, j) && lowers_in(s, j + 1, s.len() as int)
}

/// Run id, pattern
/// `run_[0-9]{4}_[0-9]{2}_[0-9]{2}_[a-z][a-z0-9_]*_[a-z]+_[0-9]{3}`.
pub open spec fn is_run_id(s: Seq<char>) -> bool {
    &&& s.len() >= 19
    &&& s[0] == 'r' && s[1] == 'u' && s[2] == 'n' && s[3] == '_'
    &&& digits_in(s, 4, 8) && s[8] == '_'
    &&& digits_in(s, 9, 11) && s[11] == '_'
    &&& digits_in(s, 12, 14) && s[14] == '_'
    &&& is_word_then_letters(s.subrange(15, s.len() - 4))
    &&& s[s.len() - 4] == '_'
    &&& digits_in(s, s.len() - 3, s.len() as int)
}

/// System id, pattern `[a-z][a-z0-9_]*_v[0-9]+`.
pub open spec fn is_system_id(s: Seq<char>) -> bool {
    exists|j: int| 1 <= j && j + 2 < s.len() && #[trigger] s[j] == '_' && s[j + 1] == 'v'
        && is_lower(s[0]) && words_in(s, 1, j) && digits_in(s, j + 2, s.len() as int)
}

/// Last position in `[from, to)` that does not hold a lowercase letter.
pub fn last_non_lower(s: &[char], from: usize, to: usize) -> (r: Option<usize>)
    requires
        from <= to <= s@.len(),
    ensures
        match r {
            Some(k) => from <= k < to && !is_lower(s@[k as int]) && lowers_in(s@, k + 1, to as int),
            None => lowers_in(s@, from as int, to as int),
        },
{
    let mut i = to;
    while i > from
        invariant
            from <= i <= to <= s@.len(),
            lowers_in(s@, i as int, to as int),
        decreases i,
    {
        if !lower_char(s[i - 1]) {
            return Some(i - 1);
        }
        i = i - 1;
    }
    None
}

/// Last position in `[from, to)` that does not hold a digit.
pub fn last_non_digit(s: &[char], from: usize, to: usize) -> (r: Option<usize>)
    requires
        from <= to <= s@.len(),
    ensures
        match r {
            Some(k) => from <= k < to && !is_digit(s@[k as int]) && digits_in(s@, k + 1, to as int),
            None => digits_in(s@, from as int, to as int),
        },
{
    let mut i = to;
    while i > from
        invariant
            from <= i <= to <= s@.len(),
            digits_in(s@, i as int, to as int),
        decreases i,
    {
        if !digit_char(s[i - 1]) {
            return Some(i - 1);
        }
        i = i - 1;
    }
    None
}

/// Checks `is_snake_word` on `s[from..to]`.
fn snake_word_at(s: &[char], from: usize, to: usize) -> (b: bool)
    requires
        from <= to <= s@.len(),
    ensures
        b == is_snake_word(s@.subrange(from as int, to as int)),
{
    let ghost w = s@.subrange(from as int, to as int);
    if from == to {
        return false;
    }
    if !lower_char(s[from]) || s[to - 1] == '_' {
        return false;
    }
    let mut i = from;
    while i < to
        invariant
            from <= i <= to <= s@.len(),
            w == s@.subrange(from as int, to as int),
            words_in(w, 0, i - from),
            forall|j: int| 0 <= j < i - from && j < w.len() - 1 ==> !(#[trigger] w[j] == '_' && w[j + 1] == '_'),
        decreases to - i,
    {
        if !word_char(s[i]) {
            assert(!is_word(w[i - from]));
            return false;
        }
        if i + 1 < to && s[i] == '_' && s[i + 1] == '_' {
            assert(w[i - from] == '_' && w[i - from + 1] == '_');
            return false;
        }
        i = i + 1;
    }
    true
}

/// Checks `is_word_then_letters` on `s[from..to]`.
fn word_then_letters_at(s: &[char], from: usize, to: usize) -> (b: bool)
    requires
        from <= to <= s@.len(),
    ensures
        b == is_word_then_letters(s@.subrange(from as int, to as int)),
{
    let ghost w = s@.subrange(from as int, to as int);
    match last_non_lower(s, from, to) {
        None => {
            proof {
                if is_word_then_letters(w) {
                    let j = choose|j: int| 1 <= j < w.len() - 1 && #[trigger] w[j] == '_' && is_lower(w[0])
                        && words_in(w, 1, j) && lowers_in(w, j + 1, w.len() as int);
                    assert(is_lower(s@[from + j]));
                }
            }
            false
        },
        Some(k) => {
            proof {
                if is_word_then_letters(w) {
                    let j = choose|j: int| 1 <= j < w.len() - 1 && #[trigger] w[j] == '_' && is_lower(w[0])
                        && words_in(w, 1, j) && lowers_in(w, j + 1, w.len() as int);
                    if k - from > j {
                        assert(is_lower(w[k - from]));
                    }
                    if k - from < j {
                        assert(is_lower(s@[from + j]));
                    }
                }
            }
            if k > from && k + 1 < to && s[k] == '_' && lower_char(s[from]) && all_words(s, from + 1, k) {
                proof {
                    assert forall|i: int| 1 <= i < k - from implies is_word(#[trigger] w[i]) by {
                        assert(w[i] == s@[from + i]);
                    }
                    assert forall|i: int| k - from + 1 <= i < w.len() implies is_lower(#[trigger] w[i]) by {
                        assert(w[i] == s@[from + i]);
                    }
                    assert(w[k - from] == '_');
                }
                true
            } else {
                proof {
                    if is_word_then_letters(w) {
                        let j = k - from;
                        assert(w[j] == '_');
                        assert forall|i: int| from + 1 <= i < k implies is_word(#[trigger] s@[i]) by {
                            assert(w[i - from] == s@[i]);
                        }
                    }
                }
                false
            }
        },
    }
}

/// Canonical benchmark instance id, e.g. `graph_dijkstra_001`.
#[derive(Debug, Clone, PartialEq, Eq)]
pub struct InstanceId {
    value: String,
}

impl View for InstanceId {
    type V = Seq<char>;

    closed spec fn view(&self) -> Seq<char> {
        self.value@
    }
}

impl InstanceId {
    /// A copy of this id.
    pub fn duplicate(&self) -> (c: Self)
        ensures
            c@ == self@,
    {
        InstanceId { value: self.value.clone() }
    }

    /// Validates `value` against the instance-id pattern.
    pub fn new(value: &str) -> (res: Result<Self, CoreError>)
        ensures
            match res {
                Ok(id) => is_instance_id(value@) && id@ == value@,
                Err(e) => !is_instance_id(value@) && e.is_invalid_id_for(value@),
            },
    {
        let s = chars_of(value);
        let n = s.len();
        let ok = n >= 5 && snake_word_at(&s, 0, n - 4) && s[n - 4] == '_' && all_digits(&s, n - 3, n);
        proof {
            if n >= 5 {
                assert(s@.subrange(0, n - 4) == s@.take(n - 4));
            }
        }
        if ok {
            Ok(InstanceId { value: value.to_owned() })
        } else {
            Err(CoreError::InvalidId {
                kind: "instance",
                pattern: "[a-z][a-z0-9]*(?:_[a-z0-9]+)*_[0-9]{3}",
                value: value.to_owned(),
            })
        }
    }

    /// Canonical string view.
    pub fn as_str(&self) -> (s: &str)
        ensures
            s@ == self@,
    {
        self.value.as_str()
    }

    /// Consumes the id into its string.
    pub fn into_inner(self) -> (s: String)
        ensures
            s@ == self@,
    {
        self.value
    }
}

/// Canonical obligation id within an instance, e.g. `obl_003`.
#[derive(Debug, Clone, PartialEq, Eq)]
pub struct ObligationId {
    value: String,
}

impl View for ObligationId {
    type V = Seq<char>;

    closed spec fn view(&self) -> Seq<char> {
        self.value@
    }
}

impl ObligationId {
    /// Validates `value` against the obligation-id pattern.
    pub fn new(value: &str) -> (res: Result<Self, CoreError>)
        ensures
            match res {
                Ok(id) => is_obligation_id(value@) && id@ == value@,
                Err(e) => !is_obligation_id(value@) && e.is_invalid_id_for(value@),
            },
    {
        let s = chars_of(value);
        let ok = s.len() == 7 && s[0] == 'o' && s[1] == 'b' && s[2] == 'l' && s[3] == '_' && all_digits(&s, 4, 7);
        if ok {
            Ok(ObligationId { value: value.to_owned() })
        } else {
            Err(CoreError::InvalidId { kind: "obligation", pattern: "obl_[0-9]{3}", value: value.to_owned() })
        }
    }

    /// Canonical string view.
    pub fn as_str(&self) -> (s: &str)
        ensures
            s@ == self@,
    {
        self.value.as_str()
    }

    /// Consumes the id into its string.
    pub fn into_inner(self) -> (s: String)
        ensures
            s@ == self@,
    {
        self.value
    }
}

/// Canonical semantic-unit id, e.g. `SU3`.
#[derive(Debug, Clone, PartialEq, Eq)]
pub struct SemanticUnitId {
    value: String,
}

impl View for SemanticUnitId {
    type V = Seq<char>;

    closed spec fn view(&self) -> Seq<char> {
        self.value@
    }
}

impl SemanticUnitId {
    /// Validates `value` against the semantic-unit-id pattern.
    pub fn new(value: &str) -> (res: Result<Self, CoreError>)
        ensures
            match res {
                Ok(id) => is_semantic_unit_id(value@) && id@ == value@,
                Err(e) => !is_semantic_unit_id(value@) && e.is_invalid_id_for(value@),
            },
    {
        let s = chars_of(value);
        let ok = s.len() >= 3 && s[0] == 'S' && s[1] == 'U' && all_digits(&s, 2, s.len());
        if ok {
            Ok(SemanticUnitId { value: value.to_owned() })
        } else {
            Err(CoreError::InvalidId { kind: "semantic_unit", pattern: "SU[0-9]+", value: value.to_owned() })
        }
    }

    /// Canonical string view.
    pub fn as_str(&self) -> (s: &str)
        ensures
            s@ == self@,
    {
        self.value.as_str()
    }

    /// Consumes the id into its string.
    pub fn into_inner(self) -> (s: String)
        ensures
            s@ == self@,
    {
        self.value
    }
}

/// Canonical run id, e.g. `run_2026_04_21_full_method_v1_eval_001`.
#[derive(Debug, Clone, PartialEq, Eq)]
pub struct RunId {
    value: String,
}

impl View for RunId {
    type V = Seq<char>;

    closed spec fn view(&self) -> Seq<char> {
        self.value@
    }
}

impl RunId {
    /// A copy of this id.
    pub fn duplicate(&self) -> (c: Self)
        ensures
            c@ == self@,
    {
        RunId { value: self.value.clone() }
    }

    /// Validates `value` against the run-id pattern.
    pub fn new(value: &str) -> (res: Result<Self, CoreError>)
        ensures
            match res {
                Ok(id) => is_run_id(value@) && id@ == value@,
                Err(e) => !is_run_id(value@) && e.is_invalid_id_for(value@),
            },
    {
        let s = chars_of(value);
        let n = s.len();
        let ok = n >= 19 && s[0] == 'r' && s[1] == 'u' && s[2] == 'n' && s[3] == '_'
            && all_digits(&s, 4, 8) && s[8] == '_'
            && all_digits(&s, 9, 11) && s[11] == '_'
            && all_digits(&s, 12, 14) && s[14] == '_'
            && word_then_letters_at(&s, 15, n - 4)
            && s[n - 4] == '_'
            && all_digits(&s, n - 3, n);
        if ok {
            Ok(RunId { value: value.to_owned() })
        } else {
            Err(CoreError::InvalidId {
                kind: "run",
                pattern: "run_[0-9]{4}_[0-9]{2}_[0-9]{2}_[a-z][a-z0-9_]*_[a-z]+_[0-9]{3}",
                value: value.to_owned(),
            })
        }
    }

    /// Canonical string view.
    pub fn as_str(&self) -> (s: &str)
        ensures
            s@ == self@,
    {
        self.value.as_str()
    }

    /// Consumes the id into its string.
    pub fn into_inner(self) -> (s: String)
        ensures
            s@ == self@,
    {
        self.value
    }
}

/// Canonical system id, e.g. `full_method_v1`.
#[derive(Debug, Clone, PartialEq, Eq)]
pub struct SystemId {
    value: String,
}

impl View for SystemId {
    type V = Seq<char>;

    closed spec fn view(&self) -> Seq<char> {
        self.value@
    }
}

/// Checks `is_system_id(s)`.
fn system_id_chars(s: &[char]) -> (b: bool)
    ensures
        b == is_system_id(s@),
{
    let n = s.len();
    match last_non_digit(s, 0, n) {
        None => {
            proof {
                if is_system_id(s@) {
                    let j = choose|j: int| 1 <= j && j + 2 < s@.len() && #[trigger] s@[j] == '_' && s@[j + 1] == 'v'
                        && is_lower(s@[0]) && words_in(s@, 1, j) && digits_in(s@, j + 2, s@.len() as int);
                    assert(is_digit(s@[j + 1]));
                }
            }
            false
        },
        Some(k) => {
            proof {
                if is_system_id(s@) {
                    let j = choose|j: int| 1 <= j && j + 2 < s@.len() && #[trigger] s@[j] == '_' && s@[j + 1] == 'v'
                        && is_lower(s@[0]) && words_in(s@, 1, j) && digits_in(s@, j + 2, s@.len() as int);
                    if k > j + 1 {
                        assert(is_digit(s@[k as int]));
                    }
                    if k < j + 1 {
                        assert(is_digit(s@[j + 1]));
                    }
                }
            }
            if k >= 2 && k + 1 < n && s[k] == 'v' && s[k - 1] == '_' && lower_char(s[0]) && all_words(s, 1, k - 1) {
                proof {
                    assert(s@[k - 1] == '_');
                }
                true
            } else {
                false
            }
        },
    }
}

impl SystemId {
    /// A copy of this id.
    pub fn duplicate(&self) -> (c: Self)
        ensures
            c@ == self@,
    {
        SystemId { value: self.value.clone() }
    }

    /// Validates `value` against the system-id pattern.
    pub fn new(value: &str) -> (res: Result<Self, CoreError>)
        ensures
            match res {
                Ok(id) => is_system_id(value@) && id@ == value@,
                Err(e) => !is_system_id(value@) && e.is_invalid_id_for(value@),
            },
    {
        let s = chars_of(value);
        if system_id_chars(&s) {
            Ok(SystemId { value: value.to_owned() })
        } else {
            Err(CoreError::InvalidId { kind: "system", pattern: "[a-z][a-z0-9_]*_v[0-9]+", value: value.to_owned() })
        }
    }

    /// Canonical string view.
    pub fn as_str(&self) -> (s: &str)
        ensures
            s@ == self@,
    {
        self.value.as_str()
    }

    /// Consumes the id into its string.
    pub fn into_inner(self) -> (s: String)
        ensures
            s@ == self@,
    {
        self.value
    }
}

} // verus!
