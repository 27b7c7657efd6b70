use vstd::prelude::*;
use vstd::arithmetic::div_mod::lemma_fundamental_div_mod;

verus! {

/// Amount still unpaid once the greedy has used every denomination at
/// position `i` or above (it pays from the last position down).
pub open spec fn greedy_rest(denoms: Seq<u32>, amount: int, i: int) -> int
    decreases denoms.len() - i,
{
    if i >= denoms.len() {
        amount
    } else {
        let r = greedy_rest(denoms, amount, i + 1);
        if denoms[i] == 0 {
            r
        } else {
            r % (denoms[i] as int)
        }
    }
}

/// Number of coins of position `i` the greedy hands out: as many as fit in
/// what is still unpaid, none for a zero denomination.
pub open spec fn greedy_coins(denoms: Seq<u32>, amount: int, i: int) -> int {
    if denoms[i] == 0 {
        0
    } else {
        greedy_rest(denoms, amount, i + 1) / (denoms[i] as int)
    }
}

/// Total value of the coins at positions `i` and above.
pub open spec fn paid_from(denoms: Seq<u32>, counts: Seq<u32>, i: int) -> int
    decreases denoms.len() - i,
{
    if i >= denoms.len() {
        0
    } else {
        counts[i] * denoms[i] + paid_from(denoms, counts, i + 1)
    }
}

/// Greedy change for a canonical coin system: from the largest position down,
/// take as many coins of each denomination as fit (zero denominations get no
/// coins).
pub fn coin_change_canonical(denoms: &[u32], amount: u32) -> (counts: Vec<u32>)
    ensures
        counts@.len() == denoms@.len(),
        forall|i: int| 0 <= i < denoms@.len() ==> counts@[i] == greedy_coins(denoms@, amount as int, i),
        forall|i: int| 0 <= i <= denoms@.len() ==> #[trigger] paid_from(denoms@, counts@, i) <= amount,
        forall|i: int| 0 <= i < denoms@.len() && denoms@[i] > 0
            ==> amount - #[trigger] paid_from(denoms@, counts@, i) < denoms@[i],
        forall|i: int| 0 <= i < denoms@.len() && denoms@[i] == 0 ==> #[trigger] counts@[i] == 0,
{
    let n = denoms.len();
    let mut counts: Vec<u32> = Vec::new();
    while counts.len() < n
        invariant
            counts@.len() <= n,
            n == denoms@.len(),
            forall|k: int| 0 <= k < counts@.len() ==> counts@[k] == 0,
        decreases n - counts@.len(),
    {
        counts.push(0);
    }
    let mut remaining = amount;
    let mut i: usize = n;
    while i > 0
        invariant
            n == denoms@.len(),
            counts@.len() == n,
            i <= n,
            remaining == greedy_rest(denoms@, amount as int, i as int),
            forall|k: int| i <= k < n ==> counts@[k] == greedy_coins(denoms@, amount as int, k),
            forall|k: int| 0 <= k < i ==> counts@[k] == 0,
        decreases i,
    {
        let idx = i - 1;
        let d = denoms[idx];
        if d != 0 {
            let q = remaining / d;
            proof {
                lemma_fundamental_div_mod(remaining as int, d as int);
                assert(q * d <= remaining && remaining - q * d == remaining as int % d as int) by (nonlinear_arith)
                    requires
                        remaining == d * (remaining as int / d as int) + remaining as int % d as int,
                        q == remaining as int / d as int,
                        0 <= remaining as int % d as int;
            }
            counts.set(idx, q);
            remaining = remaining - q * d;
        }
        i = idx;
    }
    proof {
        lemma_greedy_takes_most(denoms@, counts@, amount as int);
    }
    counts
}

/// The greedy pays from the largest position down, each time taking as many
/// coins as still fit: what the coins at positions `i` and above pay never
/// exceeds the amount, and what is left unpaid is less than the
/// denomination at `i` (no further coin of it would fit); a zero
/// denomination gets no coin.
pub proof fn lemma_greedy_takes_most(denoms: Seq<u32>, counts: Seq<u32>, amount: int)
    requires
        0 <= amount,
        counts.len() == denoms.len(),
        forall|k: int| 0 <= k < denoms.len() ==> counts[k] == greedy_coins(denoms, amount, k),
    ensures
        forall|i: int| 0 <= i <= denoms.len() ==> #[trigger] paid_from(denoms, counts, i) <= amount,
        forall|i: int| 0 <= i < denoms.len() && denoms[i] > 0
            ==> amount - #[trigger] paid_from(denoms, counts, i) < denoms[i],
        forall|i: int| 0 <= i < denoms.len() && denoms[i] == 0 ==> #[trigger] counts[i] == 0,
{
    assert forall|i: int| 0 <= i <= denoms.len() implies #[trigger] paid_from(denoms, counts, i) <= amount by {
        lemma_greedy_change_total(denoms, counts, amount, i);
        lemma_rest_nonneg(denoms, amount, i);
    }
    assert forall|i: int| 0 <= i < denoms.len() && denoms[i] > 0
        implies amount - #[trigger] paid_from(denoms, counts, i) < denoms[i] by {
        lemma_greedy_change_total(denoms, counts, amount, i);
        let r = greedy_rest(denoms, amount, i + 1);
        assert(greedy_rest(denoms, amount, i) == r % (denoms[i] as int));
    }
    assert forall|i: int| 0 <= i < denoms.len() && denoms[i] == 0 implies #[trigger] counts[i] == 0 by {
        assert(counts[i] == greedy_coins(denoms, amount, i));
    }
}

/// The coins the greedy hands out from position `i` on, plus what it leaves
/// unpaid there, make up the amount.
pub proof fn lemma_greedy_change_total(denoms: Seq<u32>, counts: Seq<u32>, amount: int, i: int)
    requires
        0 <= amount,
        0 <= i <= denoms.len(),
        counts.len() == denoms.len(),
        forall|k: int| 0 <= k < denoms.len() ==> counts[k] == greedy_coins(denoms, amount, k),
    ensures
        paid_from(denoms, counts, i) + greedy_rest(denoms, amount, i) == amount,
    decreases denoms.len() - i,
{
    if i < denoms.len() {
        lemma_greedy_change_total(denoms, counts, amount, i + 1);
        let r = greedy_rest(denoms, amount, i + 1);
        lemma_rest_nonneg(denoms, amount, i + 1);
        if denoms[i] != 0 {
            lemma_fundamental_div_mod(r, denoms[i] as int);
            assert(counts[i] * denoms[i] == (denoms[i] as int) * (r / (denoms[i] as int))) by (nonlinear_arith)
                requires counts[i] == r / (denoms[i] as int);
        }
    }
}

/// What is left unpaid never goes below zero.
pub proof fn lemma_rest_nonneg(denoms: Seq<u32>, amount: int, i: int)
    requires
        0 <= amount,
    ensures
        0 <= greedy_rest(denoms, amount, i),
    decreases denoms.len() - i,
{
    if i < denoms.len() {
        lemma_rest_nonneg(denoms, amount, i + 1);
    }
}

/// `c` can be paid with exactly `k` coins, each of a nonzero denomination of
/// `denoms`.
pub open spec fn pays(denoms: Seq<u32>, c: int, k: nat) -> bool
    decreases k,
{
    if k == 0 {
        c == 0
    } else {
        exists|i: int| 0 <= i < denoms.len() && #[trigger] denoms[i] > 0
            && pays(denoms, c - denoms[i], (k - 1) as nat)
    }
}

/// `r` is the least number of coins that pay `c`, or `None` when no number of
/// coins does.
pub open spec fn is_min_coins(denoms: Seq<u32>, c: int, r: Option<u32>) -> bool {
    match r {
        Some(x) => pays(denoms, c, x as nat) && forall|k: nat| #[trigger] pays(denoms, c, k) ==> x <= k,
        None => forall|k: nat| !#[trigger] pays(denoms, c, k),
    }
}

/// Paying `c` with `k` coins needs `c >= k`.
pub proof fn lemma_pays_bound(denoms: Seq<u32>, c: int, k: nat)
    requires
        pays(denoms, c, k),
    ensures
        k <= c,
    decreases k,
{
    if k > 0 {
        let i = choose|i: int| 0 <= i < denoms.len() && #[trigger] denoms[i] > 0
            && pays(denoms, c - denoms[i], (k - 1) as nat);
        lemma_pays_bound(denoms, c - denoms[i], (k - 1) as nat);
    }
}

/// Fewest coins that pay `amount`, by dynamic programming over the amounts
/// `0..=amount`; `None` when the amount cannot be paid.
pub fn dp_min_coins_sum(denoms: &[u32], amount: u32) -> (res: Option<u32>)
    requires
        (amount as int) < usize::MAX,
    ensures
        is_min_coins(denoms@, amount as int, res),
{
    let cap = amount as usize;
    let mut dp: Vec<Option<u32>> = Vec::new();
    while dp.len() <= cap
        invariant
            dp@.len() <= cap + 1,
            forall|k: int| 0 <= k < dp@.len() ==> dp@[k] is None,
        decreases cap + 1 - dp@.len(),
    {
        dp.push(None);
    }
    dp.set(0, Some(0));
    proof {
        assert(pays(denoms@, 0, 0));
        assert forall|k: nat| #[trigger] pays(denoms@, 0, k) implies 0 <= k by {}
    }
    let mut c: usize = 1;
    while c <= cap
        invariant
            cap == amount,
            cap < usize::MAX,
            dp@.len() == cap + 1,
            1 <= c <= cap + 1,
            forall|x: int| 0 <= x < c ==> is_min_coins(denoms@, x, #[trigger] dp@[x]),
            forall|x: int| c <= x <= cap ==> (#[trigger] dp@[x]) is None,
        decreases cap + 1 - c,
    {
        let mut j: usize = 0;
        while j < denoms.len()
            invariant
                cap == amount,
                cap < usize::MAX,
                dp@.len() == cap + 1,
                1 <= c <= cap,
                0 <= j <= denoms@.len(),
                forall|x: int| 0 <= x < c ==> is_min_coins(denoms@, x, #[trigger] dp@[x]),
                forall|x: int| c < x <= cap ==> (#[trigger] dp@[x]) is None,
                dp@[c as int] matches Some(v) ==> pays(denoms@, c as int, v as nat),
                forall|i: int| 0 <= i < j && 0 < #[trigger] denoms@[i] <= c && dp@[c - denoms@[i]] is Some
                    ==> dp@[c as int] is Some && dp@[c as int]->0 <= dp@[c - denoms@[i]]->0 + 1,
            decreases denoms@.len() - j,
        {
            let d = denoms[j];
            if d != 0 {
                let dd = d as usize;
                if dd <= c {
                    if let Some(prev) = dp[c - dd] {
                        proof {
                            assert(is_min_coins(denoms@, c - dd, dp@[c - dd]));
                            lemma_pays_bound(denoms@, (c - dd) as int, prev as nat);
                        }
                        let cand = prev + 1;
                        let better = match dp[c] {
                            None => true,
                            Some(x) => cand < x,
                        };
                        if better {
                            proof {
                                assert(pays(denoms@, c - denoms@[j as int], prev as nat));
                                assert(pays(denoms@, c as int, cand as nat));
                            }
                            dp.set(c, Some(cand));
                        }
                    }
                }
            }
            j = j + 1;
        }
        proof {
            assert forall|k: nat| #[trigger] pays(denoms@, c as int, k) implies
                dp@[c as int] is Some && dp@[c as int]->0 <= k by {
                assert(k > 0);
                let i = choose|i: int| 0 <= i < denoms@.len() && #[trigger] denoms@[i] > 0
                    && pays(denoms@, c - denoms@[i], (k - 1) as nat);
                lemma_pays_bound(denoms@, c - denoms@[i], (k - 1) as nat);
                assert(is_min_coins(denoms@, c - denoms@[i], dp@[c - denoms@[i]]));
            }
        }
        c = c + 1;
    }
    dp[cap]
}

} // verus!
