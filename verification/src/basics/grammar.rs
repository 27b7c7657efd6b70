use vstd::prelude::*;

verus! {

/// `c` is a lowercase ASCII letter.
pub open spec fn is_lower(c: char) -> bool {
    'a' <= c <= 'z'
}

/// `c` is an ASCII digit.
pub open spec fn is_digit(c: char) -> bool {
    '0' <= c <= '9'
}

/// `c` is a lowercase letter, a digit or an underscore.
pub open spec fn is_word(c: char) -> bool {
    is_lower(c) || is_digit(c) || c == '_'
}

/// Every character of `s` in `[from, to)` is a digit.
pub open spec fn digits_in(s: Seq<char>, from: int, to: int) -> bool {
    forall|i: int| from <= i < to ==> is_digit(#[trigger] s[i])
}

/// Every character of `s` in `[from, to)` is a lowercase letter.
pub open spec fn lowers_in(s: Seq<char>, from: int, to: int) -> bool {
    forall|i: int| from <= i < to ==> is_lower(#[trigger] s[i])
}

/// Every character of `s` in `[from, to)` is a lowercase letter, digit or underscore.
pub open spec fn words_in(s: Seq<char>, from: int, to: int) -> bool {
    forall|i: int| from <= i < to ==> is_word(#[trigger] s[i])
}

/// `s` starts with `p`.
pub open spec fn has_prefix(s: Seq<char>, p: Seq<char>) -> bool {
    p.len() <= s.len() && s.take(p.len() as int) == p
}

pub fn lower_char(c: char) -> (b: bool)
    ensures
        b == is_lower(c),
{
    'a' <= c && c <= 'z'
}

pub fn digit_char(c: char) -> (b: bool)
    ensures
        b == is_digit(c),
{
    '0' <= c && c <= '9'
}

pub fn word_char(c: char) -> (b: bool)
    ensures
        b == is_word(c),
{
    lower_char(c) || digit_char(c) || c == '_'
}

/// Checks `digits_in(s, from, to)`.
pub fn all_digits(s: &[char], from: usize, to: usize) -> (b: bool)
    requires
        from <= to <= s@.len(),
    ensures
        b == digits_in(s@, from as int, to as int),
{
    let mut i = from;
    while i < to
        invariant
            from <= i <= to <= s@.len(),
            digits_in(s@, from as int, i as int),
        decreases to - i,
    {
        if !digit_char(s[i]) {
            return false;
        }
        i = i + 1;
    }
    true
}

/// Checks `lowers_in(s, from, to)`.
pub fn all_lowers(s: &[char], from: usize, to: usize) -> (b: bool)
    requires
        from <= to <= s@.len(),
    ensures
        b == lowers_in(s@, from as int, to as int),
{
    let mut i = from;
    while i < to
        invariant
            from <= i <= to <= s@.len(),
            lowers_in(s@, from as int, i as int),
        decreases to - i,
    {
        if !lower_char(s[i]) {
            return false;
        }
        i = i + 1;
    }
    true
}

/// Checks `words_in(s, from, to)`.
pub fn all_words(s: &[char], from: usize, to: usize) -> (b: bool)
    requires
        from <= to <= s@.len(),
    ensures
        b == words_in(s@, from as int, to as int),
{
    let mut i = from;
    while i < to
        invariant
            from <= i <= to <= s@.len(),
            words_in(s@, from as int, i as int),
        decreases to - i,
    {
        if !word_char(s[i]) {
            return false;
        }
        i = i + 1;
    }
    true
}

/// Checks `has_prefix(s, p)`.
pub fn starts_with(s: &[char], p: &[char]) -> (b: bool)
    ensures
        b == has_prefix(s@, p@),
{
    if p.len() > s.len() {
        return false;
    }
    let mut i: usize = 0;
    while i < p.len()
        invariant
            p@.len() <= s@.len(),
            0 <= i <= p@.len(),
            forall|j: int| 0 <= j < i ==> s@[j] == p@[j],
        decreases p@.len() - i,
    {
        if s[i] != p[i] {
            proof {
                assert(s@.take(p@.len() as int)[i as int] != p@[i as int]);
            }
            return false;
        }
        i = i + 1;
    }
    proof {
        assert(s@.take(p@.len() as int) =~= p@);
    }
    true
}

} // verus!
