//! Seeded input generators for the behavioural harness. Each draws from a
//! ChaCha20 stream and clamps its parameters so that trials stay small;
//! what every generated input satisfies is stated, the draws themselves
//! are not.

use vstd::prelude::*;
use rand::{Rng, SeedableRng};
use rand_chacha::ChaCha20Rng;
use crate::harness::clamp_len;
use crate::algorithms::sorting::merge_sort;
use crate::algorithms::graph::neighbours_in_range;

verus! {

broadcast use vstd::seq_lib::group_to_multiset_ensures;

/// The ChaCha20 random-number generator of `rand_chacha`.
#[verifier::external_type_specification]
#[verifier::external_body]
pub struct ExChaCha20Rng(ChaCha20Rng);

/// `SeedableRng::seed_from_u64` for ChaCha20: the generator that `seed`
/// determines. Its state is opaque here; nothing is claimed of it.
#[verifier::external_body]
pub(crate) fn seeded_rng(seed: u64) -> ChaCha20Rng {
    ChaCha20Rng::seed_from_u64(seed)
}

/// `Rng::gen_range` over `lo..=hi` for `usize`: a value in that range.
#[verifier::external_body]
fn draw_usize(rng: &mut ChaCha20Rng, lo: usize, hi: usize) -> (r: usize)
    requires
        lo <= hi,
    ensures
        lo <= r <= hi,
{
    rng.gen_range(lo..=hi)
}

/// `Rng::gen_range` over `0..n` for `usize`: a value below `n`.
#[verifier::external_body]
fn draw_below(rng: &mut ChaCha20Rng, n: usize) -> (r: usize)
    requires
        n > 0,
    ensures
        r < n,
{
    rng.gen_range(0..n)
}

/// `Rng::gen_range` over `lo..=hi` for `i32`: a value in that range.
#[verifier::external_body]
fn draw_i32(rng: &mut ChaCha20Rng, lo: i32, hi: i32) -> (r: i32)
    requires
        lo <= hi,
    ensures
        lo <= r <= hi,
{
    rng.gen_range(lo..=hi)
}

/// `Rng::gen_range` over `lo..=hi` for `u32`: a value in that range.
#[verifier::external_body]
fn draw_u32(rng: &mut ChaCha20Rng, lo: u32, hi: u32) -> (r: u32)
    requires
        lo <= hi,
    ensures
        lo <= r <= hi,
{
    rng.gen_range(lo..=hi)
}

/// `Rng::gen_ratio(1, 2)`: a fair coin. Nothing is claimed of the outcome.
#[verifier::external_body]
fn draw_coin(rng: &mut ChaCha20Rng) -> (b: bool) {
    rng.gen_ratio(1, 2)
}

/// Samples a length in `[min_len, max_len]` (just `min_len` when the range
/// has one point or none).
pub fn sample_len(rng: &mut ChaCha20Rng, min_len: usize, max_len: usize) -> (len: usize)
    ensures
        max_len <= min_len ==> len == min_len,
        min_len < max_len ==> min_len <= len <= max_len,
{
    if max_len <= min_len {
        min_len
    } else {
        draw_usize(rng, min_len, max_len)
    }
}

/// The length window after clamping to `cap`.
pub open spec fn clamped(min_len: usize, max_len: usize, cap: usize) -> (usize, usize) {
    let mx = if max_len <= cap { max_len } else { cap };
    let mn = if min_len <= mx { min_len } else { mx };
    (mn, mx)
}

/// `len` lies in the clamped window.
pub open spec fn len_in(len: int, min_len: usize, max_len: usize, cap: usize) -> bool {
    clamped(min_len, max_len, cap).0 <= len <= clamped(min_len, max_len, cap).1
}

/// `len` values drawn from `[value_min, value_max]`.
fn draw_values(rng: &mut ChaCha20Rng, len: usize, value_min: i32, value_max: i32) -> (v: Vec<i32>)
    requires
        len == 0 || value_min <= value_max,
    ensures
        v@.len() == len,
        forall|i: int| 0 <= i < v@.len() ==> value_min <= #[trigger] v@[i] <= value_max,
{
    let mut v: Vec<i32> = Vec::new();
    while v.len() < len
        invariant
            v@.len() <= len,
            len == 0 || value_min <= value_max,
            forall|i: int| 0 <= i < v@.len() ==> value_min <= #[trigger] v@[i] <= value_max,
        decreases len - v@.len(),
    {
        let x = draw_i32(rng, value_min, value_max);
        v.push(x);
    }
    v
}

/// A non-decreasing vector of at most 256 values in `[value_min, value_max]`
/// and a target in the same range (half the time one of the values).
pub fn sorted_int_vec_with_target(
    rng: &mut ChaCha20Rng,
    min_len: usize,
    max_len: usize,
    value_min: i32,
    value_max: i32,
) -> (r: (Vec<i32>, i32))
    requires
        value_min <= value_max,
    ensures
        len_in(r.0@.len() as int, min_len, max_len, 256),
        forall|i: int, j: int| 0 <= i <= j < r.0@.len() ==> r.0@[i] <= r.0@[j],
        forall|i: int| 0 <= i < r.0@.len() ==> value_min <= #[trigger] r.0@[i] <= value_max,
        value_min <= r.1 <= value_max,
{
    let (mn, mx) = clamp_len(min_len, max_len, 256);
    let len = sample_len(rng, mn, mx);
    let raw = draw_values(rng, len, value_min, value_max);
    let v = merge_sort(raw.as_slice());
    proof {
        assert forall|i: int| 0 <= i < v@.len() implies value_min <= #[trigger] v@[i] <= value_max by {
            assert(v@.to_multiset().count(v@[i]) > 0);
            assert(raw@.to_multiset().count(v@[i]) > 0);
            let j = choose|j: int| 0 <= j < raw@.len() && raw@[j] == v@[i];
        }
    }
    let target = if v.len() > 0 && draw_coin(rng) {
        let i = draw_below(rng, v.len());
        v[i]
    } else {
        draw_i32(rng, value_min, value_max)
    };
    (v, target)
}

/// A vector of at most 256 values in `[value_min, value_max]`.
pub fn int_vec(rng: &mut ChaCha20Rng, min_len: usize, max_len: usize, value_min: i32, value_max: i32) -> (v: Vec<i32>)
    requires
        value_min <= value_max || max_len == 0,
    ensures
        len_in(v@.len() as int, min_len, max_len, 256),
        forall|i: int| 0 <= i < v@.len() ==> value_min <= #[trigger] v@[i] <= value_max,
{
    let (mn, mx) = clamp_len(min_len, max_len, 256);
    let len = sample_len(rng, mn, mx);
    draw_values(rng, len, value_min, value_max)
}

/// Two vectors drawn as `int_vec` does, one after the other.
pub fn pair_int_vec(
    rng: &mut ChaCha20Rng,
    min_len: usize,
    max_len: usize,
    value_min: i32,
    value_max: i32,
) -> (r: (Vec<i32>, Vec<i32>))
    requires
        value_min <= value_max || max_len == 0,
    ensures
        len_in(r.0@.len() as int, min_len, max_len, 256),
        len_in(r.1@.len() as int, min_len, max_len, 256),
        forall|i: int| 0 <= i < r.0@.len() ==> value_min <= #[trigger] r.0@[i] <= value_max,
        forall|i: int| 0 <= i < r.1@.len() ==> value_min <= #[trigger] r.1@[i] <= value_max,
{
    let a = int_vec(rng, min_len, max_len, value_min, value_max);
    let b = int_vec(rng, min_len, max_len, value_min, value_max);
    (a, b)
}

/// At most 64 intervals `(s, e)` with `coord_min <= s < e <= coord_max + 1`
/// (a point draw `a` becomes `(a, a + 1)`).
pub fn interval_vec(
    rng: &mut ChaCha20Rng,
    min_len: usize,
    max_len: usize,
    coord_min: i32,
    coord_max: i32,
) -> (out: Vec<(i32, i32)>)
    requires
        (coord_min <= coord_max && coord_max < i32::MAX) || max_len == 0,
    ensures
        len_in(out@.len() as int, min_len, max_len, 64),
        forall|i: int| 0 <= i < out@.len() ==> coord_min <= (#[trigger] out@[i]).0 < out@[i].1 <= coord_max + 1,
{
    let (mn, mx) = clamp_len(min_len, max_len, 64);
    let len = sample_len(rng, mn, mx);
    let mut out: Vec<(i32, i32)> = Vec::new();
    while out.len() < len
        invariant
            out@.len() <= len,
            len == 0 || (coord_min <= coord_max && coord_max < i32::MAX),
            forall|i: int| 0 <= i < out@.len() ==> coord_min <= (#[trigger] out@[i]).0 < out@[i].1 <= coord_max + 1,
        decreases len - out@.len(),
    {
        let a = draw_i32(rng, coord_min, coord_max);
        let b = draw_i32(rng, coord_min, coord_max);
        if a == b {
            out.push((a, a + 1));
        } else if a < b {
            out.push((a, b));
        } else {
            out.push((b, a));
        }
    }
    out
}

/// Inserts `v` into the increasing row `row`.
fn insert_increasing(row: &mut Vec<usize>, v: usize)
    requires
        forall|i: int, j: int| 0 <= i < j < old(row)@.len() ==> old(row)@[i] < old(row)@[j],
        !old(row)@.contains(v),
    ensures
        forall|i: int, j: int| 0 <= i < j < final(row)@.len() ==> final(row)@[i] < final(row)@[j],
        final(row)@.to_set() == old(row)@.to_set().insert(v),
        final(row)@.len() == old(row)@.len() + 1,
{
    let ghost before = row@;
    let len = row.len();
    row.push(v);
    let mut j: usize = len;
    while j > 0 && row[j - 1] > v
        invariant
            before.len() == len,
            row@.len() == len + 1,
            j <= len,
            forall|i: int, k: int| 0 <= i < k < before.len() ==> before[i] < before[k],
            forall|q: int| 0 <= q < j ==> #[trigger] row@[q] == before[q],
            forall|q: int| j < q <= len ==> #[trigger] row@[q] == before[q - 1],
            forall|q: int| j <= q < len ==> #[trigger] before[q] > v,
        decreases j,
    {
        let y = row[j - 1];
        row.set(j, y);
        j = j - 1;
    }
    row.set(j, v);
    proof {
        assert(row@ =~= before.take(j as int).push(v) + before.skip(j as int));
        assert forall|q: int| 0 <= q < j implies #[trigger] before[q] < v by {
            if j > 0 && q < j - 1 {
                assert(before[q] < before[j - 1]);
            }
            assert(before[q] != v);
        }
        assert forall|x: usize| row@.contains(x) <==> before.contains(x) || x == v by {
            if row@.contains(x) {
                let q = choose|q: int| 0 <= q < row@.len() && row@[q] == x;
                if q < j {
                    assert(before[q] == x);
                } else if q > j {
                    assert(before[q - 1] == x);
                }
            }
            if before.contains(x) {
                let q = choose|q: int| 0 <= q < before.len() && before[q] == x;
                if q < j {
                    assert(row@[q] == x);
                } else {
                    assert(row@[q + 1] == x);
                }
            }
            if x == v {
                assert(row@[j as int] == v);
            }
        }
        assert(row@.to_set() =~= before.to_set().insert(v));
    }
}

/// Whether `v` is in `row`.
fn row_contains(row: &Vec<usize>, v: usize) -> (b: bool)
    ensures
        b == row@.contains(v),
{
    let mut k: usize = 0;
    while k < row.len()
        invariant
            k <= row@.len(),
            forall|j: int| 0 <= j < k ==> row@[j] != v,
        decreases row@.len() - k,
    {
        if row[k] == v {
            return true;
        }
        k = k + 1;
    }
    false
}

/// A graph of between one and 64 vertices and a source vertex: each row
/// holds its out-neighbours in increasing order, with no self-loop and no
/// repeated edge, at most `max_out_degree` of them.
pub fn adj_list(rng: &mut ChaCha20Rng, min_n: usize, max_n: usize, max_out_degree: usize) -> (r: (Vec<Vec<usize>>, usize))
    ensures
        1 <= r.0@.len() <= 64,
        len_in(r.0@.len() as int, min_n, max_n, 64) || r.0@.len() == 1,
        r.1 < r.0@.len(),
        neighbours_in_range(r.0@),
        forall|u: int| 0 <= u < r.0@.len() ==> (#[trigger] r.0@[u])@.len() <= max_out_degree,
        forall|u: int, i: int, j: int| 0 <= u < r.0@.len() && 0 <= i < j < r.0@[u]@.len()
            ==> #[trigger] r.0@[u]@[i] < #[trigger] r.0@[u]@[j],
        forall|u: int| 0 <= u < r.0@.len() ==> !(#[trigger] r.0@[u])@.contains(u as usize),
{
    let (mn, mx) = clamp_len(min_n, max_n, 64);
    let lo = if mn < 1 { 1 } else { mn };
    let hi = if mx < 1 { 1 } else { mx };
    let n = sample_len(rng, lo, hi);
    assert(1 <= n <= 64);
    let mut adj: Vec<Vec<usize>> = Vec::new();
    let mut u: usize = 0;
    while u < n
        invariant
            1 <= n <= 64,
            u <= n,
            adj@.len() == u,
            forall|w: int, t: int| 0 <= w < u && 0 <= t < adj@[w]@.len() ==> adj@[w]@[t] < n,
            forall|w: int| 0 <= w < u ==> (#[trigger] adj@[w])@.len() <= max_out_degree,
            forall|w: int, i: int, j: int| 0 <= w < u && 0 <= i < j < adj@[w]@.len()
                ==> #[trigger] adj@[w]@[i] < #[trigger] adj@[w]@[j],
            forall|w: int| 0 <= w < u ==> !(#[trigger] adj@[w])@.contains(w as usize),
        decreases n - u,
    {
        let cap = if max_out_degree < n - 1 { max_out_degree } else { n - 1 };
        let k = draw_usize(rng, 0, cap);
        let mut row: Vec<usize> = Vec::new();
        let mut t: usize = 0;
        while t < k
            invariant
                u < n,
                t <= k,
                k <= cap,
                cap <= max_out_degree,
                cap <= n - 1,
                row@.len() <= t,
                forall|i: int| 0 <= i < row@.len() ==> row@[i] < n,
                forall|i: int, j: int| 0 <= i < j < row@.len() ==> row@[i] < row@[j],
                !row@.contains(u),
            decreases k - t,
        {
            let v = draw_below(rng, n);
            if v != u && !row_contains(&row, v) {
                let ghost before = row@;
                insert_increasing(&mut row, v);
                proof {
                    assert forall|i: int| 0 <= i < row@.len() implies row@[i] < n by {
                        assert(row@.to_set().contains(row@[i]));
                        assert(before.to_set().insert(v).contains(row@[i]));
                    }
                    if row@.contains(u) {
                        assert(row@.to_set().contains(u));
                        assert(before.to_set().contains(u) || u == v);
                    }
                }
            }
            t = t + 1;
        }
        let ghost d0 = adj@;
        adj.push(row);
        proof {
            assert forall|w: int| 0 <= w < u implies #[trigger] adj@[w] == d0[w] by {}
        }
        u = u + 1;
    }
    let source = draw_below(rng, n);
    (adj, source)
}

/// One of the coin systems and an amount in `[amount_min, amount_max]`.
pub fn canonical_coin_system(
    rng: &mut ChaCha20Rng,
    systems: &[Vec<u32>],
    amount_min: u32,
    amount_max: u32,
) -> (r: (Vec<u32>, u32))
    requires
        systems@.len() > 0,
        amount_min <= amount_max,
    ensures
        exists|i: int| 0 <= i < systems@.len() && r.0@ == (#[trigger] systems@[i])@,
        amount_min <= r.1 <= amount_max,
{
    let idx = draw_below(rng, systems.len());
    let chosen = &systems[idx];
    let mut denoms: Vec<u32> = Vec::new();
    let mut k: usize = 0;
    while k < chosen.len()
        invariant
            k <= chosen@.len(),
            denoms@ == chosen@.take(k as int),
        decreases chosen@.len() - k,
    {
        denoms.push(chosen[k]);
        proof {
            assert(chosen@.take(k + 1) == chosen@.take(k as int).push(chosen@[k as int]));
        }
        k = k + 1;
    }
    proof {
        assert(chosen@.take(chosen@.len() as int) == chosen@);
    }
    let amount = draw_u32(rng, amount_min, amount_max);
    (denoms, amount)
}

/// `n` values drawn from `[lo, hi]`.
fn draw_u32s(rng: &mut ChaCha20Rng, n: usize, lo: u32, hi: u32) -> (v: Vec<u32>)
    requires
        n == 0 || lo <= hi,
    ensures
        v@.len() == n,
        forall|i: int| 0 <= i < v@.len() ==> lo <= #[trigger] v@[i] <= hi,
{
    let mut v: Vec<u32> = Vec::new();
    while v.len() < n
        invariant
            v@.len() <= n,
            n == 0 || lo <= hi,
            forall|i: int| 0 <= i < v@.len() ==> lo <= #[trigger] v@[i] <= hi,
        decreases n - v@.len(),
    {
        let x = draw_u32(rng, lo, hi);
        v.push(x);
    }
    v
}

/// A knapsack instance of at most 16 items: weights, values (as many) and a
/// capacity, each drawn from its range.
pub fn knapsack_instance(
    rng: &mut ChaCha20Rng,
    min_items: usize,
    max_items: usize,
    w_min: u32,
    w_max: u32,
    v_min: u32,
    v_max: u32,
    cap_min: u32,
    cap_max: u32,
) -> (r: (Vec<u32>, Vec<u32>, u32))
    requires
        cap_min <= cap_max,
        max_items == 0 || (w_min <= w_max && v_min <= v_max),
    ensures
        r.0@.len() == r.1@.len(),
        len_in(r.0@.len() as int, min_items, max_items, 16),
        forall|i: int| 0 <= i < r.0@.len() ==> w_min <= #[trigger] r.0@[i] <= w_max,
        forall|i: int| 0 <= i < r.1@.len() ==> v_min <= #[trigger] r.1@[i] <= v_max,
        cap_min <= r.2 <= cap_max,
{
    let (mn, mx) = clamp_len(min_items, max_items, 16);
    let n = sample_len(rng, mn, mx);
    let weights = draw_u32s(rng, n, w_min, w_max);
    let values = draw_u32s(rng, n, v_min, v_max);
    let capacity = draw_u32(rng, cap_min, cap_max);
    (weights, values, capacity)
}

/// At most 64 keys to insert into a search tree and one more key, all from
/// `[key_min, key_max]`.
pub fn bst_key_sequence(rng: &mut ChaCha20Rng, min_size: usize, max_size: usize, key_min: i32, key_max: i32) -> (r: (Vec<i32>, i32))
    requires
        key_min <= key_max,
    ensures
        len_in(r.0@.len() as int, min_size, max_size, 64),
        forall|i: int| 0 <= i < r.0@.len() ==> key_min <= #[trigger] r.0@[i] <= key_max,
        key_min <= r.1 <= key_max,
{
    let (mn, mx) = clamp_len(min_size, max_size, 64);
    let len = sample_len(rng, mn, mx);
    let existing = draw_values(rng, len, key_min, key_max);
    let new_key = draw_i32(rng, key_min, key_max);
    (existing, new_key)
}

/// Whether `k` is in `keys`.
fn key_seen(keys: &Vec<i32>, k: i32) -> (b: bool)
    ensures
        b == keys@.contains(k),
{
    let mut i: usize = 0;
    while i < keys.len()
        invariant
            i <= keys@.len(),
            forall|j: int| 0 <= j < i ==> keys@[j] != k,
        decreases keys@.len() - i,
    {
        if keys[i] == k {
            return true;
        }
        i = i + 1;
    }
    false
}

/// Distinct keys to insert into a search tree (at least two, at most 64) and
/// two query keys drawn from them. Keys are drawn from `[key_min, key_max]`
/// until there are enough or eight tries per key are spent; with fewer than
/// two, the keys are `key_min` and the one after it (saturating, so twice
/// `i32::MAX` when that is `key_min`).
pub fn bst_with_two_keys(
    rng: &mut ChaCha20Rng,
    min_size: usize,
    max_size: usize,
    key_min: i32,
    key_max: i32,
) -> (r: (Vec<i32>, i32, i32))
    requires
        key_min <= key_max || max_size == 0,
    ensures
        2 <= r.0@.len() <= 64,
        key_min < i32::MAX ==> forall|i: int, j: int| 0 <= i < j < r.0@.len() ==> r.0@[i] != r.0@[j],
        r.0@.contains(r.1),
        r.0@.contains(r.2),
{
    let lo = if min_size < 2 { 2 } else { min_size };
    let (mn, mx) = clamp_len(lo, max_size, 64);
    let len = sample_len(rng, mn, mx);
    assert(len <= 64);
    let mut keys: Vec<i32> = Vec::new();
    let mut attempts: usize = 0;
    while keys.len() < len && attempts < len * 8
        invariant
            len <= 64,
            keys@.len() <= len,
            len == 0 || key_min <= key_max,
            attempts <= len * 8,
            forall|i: int, j: int| 0 <= i < j < keys@.len() ==> keys@[i] != keys@[j],
        decreases len * 8 - attempts,
    {
        let k = draw_i32(rng, key_min, key_max);
        if !key_seen(&keys, k) {
            keys.push(k);
        }
        attempts = attempts + 1;
    }
    if keys.len() < 2 {
        let second = if key_min < i32::MAX { key_min + 1 } else { i32::MAX };
        keys = Vec::new();
        keys.push(key_min);
        keys.push(second);
    }
    let p = keys[draw_below(rng, keys.len())];
    let q = keys[draw_below(rng, keys.len())];
    (keys, p, q)
}

} // verus!
