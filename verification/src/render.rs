//! Text of the values that oracle reports show: integers in decimal, and
//! lists, sets and options in the notation Rust's `Debug` uses.

use vstd::prelude::*;
use crate::lean::{decimal, decimal_string};
use crate::text::{push_all, string_from_chars};

verus! {

/// `n` in decimal, with a leading `-` when negative.
pub open spec fn signed(n: int) -> Seq<char> {
    if n < 0 { seq!['-'] + decimal((-n) as nat) } else { decimal(n as nat) }
}

/// `items[..k]` separated by `, `.
pub open spec fn joined(items: Seq<Seq<char>>, k: int) -> Seq<char>
    decreases k,
{
    if k <= 0 || k > items.len() {
        Seq::empty()
    } else if k == 1 {
        items[0]
    } else {
        joined(items, k - 1) + ", "@ + items[k - 1]
    }
}

/// `[a, b, ...]`.
pub open spec fn bracketed(items: Seq<Seq<char>>) -> Seq<char> {
    "["@ + joined(items, items.len() as int) + "]"@
}

/// `{a, b, ...}`.
pub open spec fn braced(items: Seq<Seq<char>>) -> Seq<char> {
    "{"@ + joined(items, items.len() as int) + "}"@
}

/// `Some(x)` or `None`.
pub open spec fn option_text(o: Option<Seq<char>>) -> Seq<char> {
    match o {
        Some(x) => "Some("@ + x + ")"@,
        None => "None"@,
    }
}

/// `n` in decimal.
pub fn unsigned_text(n: u64) -> (out: String)
    ensures
        out@ == decimal(n as nat),
{
    string_from_chars(&decimal_string(n))
}

/// `n` in decimal, with a leading `-` when negative.
pub fn signed_text(n: i64) -> (out: String)
    ensures
        out@ == signed(n as int),
{
    if n < 0 {
        let magnitude: u64 = ((-(n + 1)) as u64) + 1;
        let mut out = String::new();
        push_all(&mut out, "-");
        let digits = string_from_chars(&decimal_string(magnitude));
        push_all(&mut out, digits.as_str());
        proof {
            reveal_strlit("-");
        }
        out
    } else {
        unsigned_text(n as u64)
    }
}

/// The parts separated by `, `.
fn join_parts(parts: &Vec<String>) -> (out: String)
    ensures
        out@ == joined(parts@.map_values(|s: String| s@), parts@.len() as int),
{
    let ghost items = parts@.map_values(|s: String| s@);
    let mut out = String::new();
    let mut k: usize = 0;
    while k < parts.len()
        invariant
            k <= parts@.len(),
            items == parts@.map_values(|s: String| s@),
            out@ == joined(items, k as int),
        decreases parts@.len() - k,
    {
        if k > 0 {
            push_all(&mut out, ", ");
        } else {
            assert(out@ =~= Seq::<char>::empty());
        }
        push_all(&mut out, parts[k].as_str());
        proof {
            assert(items[k as int] == parts@[k as int]@);
            if k == 0 {
                assert(out@ =~= items[0]);
            }
        }
        k = k + 1;
    }
    out
}

/// `[a, b, ...]` of the parts.
pub fn bracket_parts(parts: &Vec<String>) -> (out: String)
    ensures
        out@ == bracketed(parts@.map_values(|s: String| s@)),
{
    let mut out = String::new();
    push_all(&mut out, "[");
    let inner = join_parts(parts);
    push_all(&mut out, inner.as_str());
    push_all(&mut out, "]");
    proof {
        assert(out@ =~= bracketed(parts@.map_values(|s: String| s@)));
    }
    out
}

/// `{a, b, ...}` of the parts.
pub fn brace_parts(parts: &Vec<String>) -> (out: String)
    ensures
        out@ == braced(parts@.map_values(|s: String| s@)),
{
    let mut out = String::new();
    push_all(&mut out, "{");
    let inner = join_parts(parts);
    push_all(&mut out, inner.as_str());
    push_all(&mut out, "}");
    proof {
        assert(out@ =~= braced(parts@.map_values(|s: String| s@)));
    }
    out
}

/// `Some(x)` or `None`.
pub fn option_parts(o: Option<String>) -> (out: String)
    ensures
        out@ == option_text(match o { Some(x) => Some(x@), None => None }),
{
    match o {
        Some(x) => {
            let mut out = String::new();
            push_all(&mut out, "Some(");
            push_all(&mut out, x.as_str());
            push_all(&mut out, ")");
            out
        },
        None => {
            let mut out = String::new();
            push_all(&mut out, "None");
            assert(out@ =~= "None"@);
            out
        },
    }
}

/// Text of each value.
pub open spec fn signed_texts(v: Seq<i32>) -> Seq<Seq<char>> {
    v.map_values(|x: i32| signed(x as int))
}

/// `[a, b, ...]` of `i32` values.
pub fn i32_list_text(v: &[i32]) -> (out: String)
    ensures
        out@ == bracketed(signed_texts(v@)),
{
    let mut parts: Vec<String> = Vec::new();
    let mut k: usize = 0;
    while k < v.len()
        invariant
            k <= v@.len(),
            parts@.map_values(|s: String| s@) == signed_texts(v@.take(k as int)),
        decreases v@.len() - k,
    {
        let t = signed_text(v[k] as i64);
        let ghost before = parts@.map_values(|s: String| s@);
        parts.push(t);
        proof {
            assert(parts@.map_values(|s: String| s@) =~= before.push(t@));
            assert(signed_texts(v@.take(k + 1)) =~= signed_texts(v@.take(k as int)).push(signed(v@[k as int] as int)));
        }
        k = k + 1;
    }
    proof {
        assert(v@.take(v@.len() as int) =~= v@);
    }
    bracket_parts(&parts)
}

/// `{a, b, ...}` of `i32` values.
pub fn i32_set_text(v: &[i32]) -> (out: String)
    ensures
        out@ == braced(signed_texts(v@)),
{
    let mut parts: Vec<String> = Vec::new();
    let mut k: usize = 0;
    while k < v.len()
        invariant
            k <= v@.len(),
            parts@.map_values(|s: String| s@) == signed_texts(v@.take(k as int)),
        decreases v@.len() - k,
    {
        let t = signed_text(v[k] as i64);
        let ghost before = parts@.map_values(|s: String| s@);
        parts.push(t);
        proof {
            assert(parts@.map_values(|s: String| s@) =~= before.push(t@));
            assert(signed_texts(v@.take(k + 1)) =~= signed_texts(v@.take(k as int)).push(signed(v@[k as int] as int)));
        }
        k = k + 1;
    }
    proof {
        assert(v@.take(v@.len() as int) =~= v@);
    }
    brace_parts(&parts)
}

/// Text of each distance (`Some(d)` or `None`).
pub open spec fn distance_texts(v: Seq<Option<usize>>) -> Seq<Seq<char>> {
    v.map_values(|o: Option<usize>| option_text(match o { Some(d) => Some(decimal(d as nat)), None => None }))
}

/// `[Some(d), None, ...]` of distances.
pub fn distances_text(v: &[Option<usize>]) -> (out: String)
    ensures
        out@ == bracketed(distance_texts(v@)),
{
    let mut parts: Vec<String> = Vec::new();
    let mut k: usize = 0;
    while k < v.len()
        invariant
            k <= v@.len(),
            parts@.map_values(|s: String| s@) == distance_texts(v@.take(k as int)),
        decreases v@.len() - k,
    {
        let t = match v[k] {
            Some(d) => option_parts(Some(unsigned_text(d as u64))),
            None => option_parts(None),
        };
        let ghost before = parts@.map_values(|s: String| s@);
        parts.push(t);
        proof {
            assert(parts@.map_values(|s: String| s@) =~= before.push(t@));
            assert(distance_texts(v@.take(k + 1)) =~= distance_texts(v@.take(k as int)).push(t@));
        }
        k = k + 1;
    }
    proof {
        assert(v@.take(v@.len() as int) =~= v@);
    }
    bracket_parts(&parts)
}


/// Text of each weighted distance: `Some(d)` or `None`.
pub open spec fn weighted_distance_texts(v: Seq<Option<u64>>) -> Seq<Seq<char>> {
    v.map_values(|o: Option<u64>| option_text(match o { Some(d) => Some(decimal(d as nat)), None => None }))
}

/// `[Some(d), None, ...]` of weighted distances.
pub fn weighted_distances_text(v: &[Option<u64>]) -> (out: String)
    ensures
        out@ == bracketed(weighted_distance_texts(v@)),
{
    let mut parts: Vec<String> = Vec::new();
    let mut k: usize = 0;
    while k < v.len()
        invariant
            k <= v@.len(),
            parts@.map_values(|s: String| s@) == weighted_distance_texts(v@.take(k as int)),
        decreases v@.len() - k,
    {
        let t = match v[k] {
            Some(d) => option_parts(Some(unsigned_text(d))),
            None => option_parts(None),
        };
        let ghost before = parts@.map_values(|s: String| s@);
        parts.push(t);
        proof {
            assert(parts@.map_values(|s: String| s@) =~= before.push(t@));
            assert(weighted_distance_texts(v@.take(k + 1)) =~= weighted_distance_texts(v@.take(k as int)).push(t@));
        }
        k = k + 1;
    }
    proof {
        assert(v@.take(v@.len() as int) =~= v@);
    }
    bracket_parts(&parts)
}


/// Text of each unsigned value.
pub open spec fn unsigned_texts(v: Seq<u32>) -> Seq<Seq<char>> {
    v.map_values(|x: u32| decimal(x as nat))
}

/// `[a, b, ...]` of `u32` values.
pub fn u32_list_text(v: &[u32]) -> (out: String)
    ensures
        out@ == bracketed(unsigned_texts(v@)),
{
    let mut parts: Vec<String> = Vec::new();
    let mut k: usize = 0;
    while k < v.len()
        invariant
            k <= v@.len(),
            parts@.map_values(|s: String| s@) == unsigned_texts(v@.take(k as int)),
        decreases v@.len() - k,
    {
        let t = unsigned_text(v[k] as u64);
        let ghost before = parts@.map_values(|s: String| s@);
        parts.push(t);
        proof {
            assert(parts@.map_values(|s: String| s@) =~= before.push(t@));
            assert(unsigned_texts(v@.take(k + 1)) =~= unsigned_texts(v@.take(k as int)).push(decimal(v@[k as int] as nat)));
        }
        k = k + 1;
    }
    proof {
        assert(v@.take(v@.len() as int) =~= v@);
    }
    bracket_parts(&parts)
}

} // verus!
