use vstd::prelude::*;

verus! {

broadcast use vstd::seq_lib::group_to_multiset_ensures;

/// Intervals are ordered by their end point.
pub open spec fn sorted_by_end(t: Seq<(i32, i32)>) -> bool {
    forall|a: int, b: int| 0 <= a <= b < t.len() ==> (#[trigger] t[a]).1 <= (#[trigger] t[b]).1
}

/// `c` picks intervals of `t` below index `p`, at strictly increasing
/// positions, each one ending no later than the next one starts.
pub open spec fn is_chain(t: Seq<(i32, i32)>, c: Seq<int>, p: int) -> bool {
    &&& forall|a: int| 0 <= a < c.len() ==> 0 <= #[trigger] c[a] < p
    &&& forall|a: int| #![trigger c[a]] 0 < a < c.len() ==> c[a - 1] < c[a] && t[c[a - 1]].1 <= t[c[a]].0
}

/// `m` is the largest number of intervals of `t` that a chain can pick.
pub open spec fn is_max_chain_len(t: Seq<(i32, i32)>, m: int) -> bool {
    &&& exists|c: Seq<int>| #[trigger] is_chain(t, c, t.len() as int) && c.len() == m
    &&& forall|c: Seq<int>| #[trigger] is_chain(t, c, t.len() as int) ==> c.len() <= m
}

/// `s` with `x` inserted after every interval whose end is no later than
/// its own (so intervals with equal ends keep their order).
pub open spec fn insert_by_end(s: Seq<(i32, i32)>, x: (i32, i32)) -> Seq<(i32, i32)>
    decreases s.len(),
{
    if s.len() == 0 {
        seq![x]
    } else if s.last().1 <= x.1 {
        s.push(x)
    } else {
        insert_by_end(s.drop_last(), x).push(s.last())
    }
}

/// `s` stably sorted by end point (insertion sort).
pub open spec fn stable_by_end(s: Seq<(i32, i32)>) -> Seq<(i32, i32)>
    decreases s.len(),
{
    if s.len() == 0 {
        Seq::empty()
    } else {
        insert_by_end(stable_by_end(s.drop_last()), s.last())
    }
}

/// Where `insert_by_end` puts `x`, found by scanning back from the end.
proof fn lemma_insert_by_end_at(s: Seq<(i32, i32)>, x: (i32, i32), p: int)
    requires
        0 <= p <= s.len(),
        p == 0 || s[p - 1].1 <= x.1,
        forall|j: int| p <= j < s.len() ==> (#[trigger] s[j]).1 > x.1,
    ensures
        insert_by_end(s, x) == s.take(p).push(x) + s.skip(p),
    decreases s.len() - p,
{
    if s.len() == p {
        if s.len() == 0 {
            assert(s.take(p).push(x) + s.skip(p) =~= seq![x]);
        } else {
            assert(s.take(p) =~= s);
            assert(s.take(p).push(x) + s.skip(p) =~= s.push(x));
        }
    } else {
        assert(s.last().1 > x.1);
        let t = s.drop_last();
        assert forall|j: int| p <= j < t.len() implies (#[trigger] t[j]).1 > x.1 by {
            assert(t[j] == s[j]);
        }
        if p > 0 {
            assert(t[p - 1] == s[p - 1]);
        }
        lemma_insert_by_end_at(t, x, p);
        assert(t.take(p) =~= s.take(p));
        assert((t.take(p).push(x) + t.skip(p)).push(s.last()) =~= s.take(p).push(x) + s.skip(p));
    }
}

/// Sorts intervals by their end point (insertion sort, so intervals with equal
/// ends keep their input order).
pub fn sort_by_end(intervals: &[(i32, i32)]) -> (out: Vec<(i32, i32)>)
    ensures
        out@ == stable_by_end(intervals@),
        out@.to_multiset() == intervals@.to_multiset(),
        sorted_by_end(out@),
{
    let mut out: Vec<(i32, i32)> = Vec::new();
    let mut i: usize = 0;
    while i < intervals.len()
        invariant
            0 <= i <= intervals@.len(),
            out@ == stable_by_end(intervals@.take(i as int)),
            out@.to_multiset() == intervals@.take(i as int).to_multiset(),
            sorted_by_end(out@),
        decreases intervals@.len() - i,
    {
        let x = intervals[i];
        let ghost before = out@;
        out.push(x);
        let mut j: usize = out.len() - 1;
        while j > 0 && out[j - 1].1 > out[j].1
            invariant
                0 <= j < out@.len(),
                out@.len() == before.len() + 1,
                j <= before.len(),
                out@ == before.take(j as int).push(x) + before.skip(j as int),
                forall|k: int| j <= k < before.len() ==> (#[trigger] before[k]).1 > x.1,
                out@.to_multiset() == before.to_multiset().insert(x),
                forall|a: int, b: int| 0 <= a <= b < out@.len() && a != j && b != j
                    ==> (#[trigger] out@[a]).1 <= (#[trigger] out@[b]).1,
                forall|b: int| j < b < out@.len() ==> out@[j as int].1 <= (#[trigger] out@[b]).1,
            decreases j,
        {
            let ghost cur = out@;
            let y = out[j - 1];
            let z = out[j];
            proof {
                assert(z == x);
                assert(y == before[j - 1]);
            }
            out.set(j - 1, z);
            out.set(j, y);
            proof {
                let mid = cur.update(j - 1, z);
                assert(out@ == mid.update(j as int, y));
                assert(mid.to_multiset() == cur.to_multiset().insert(z).remove(y));
                assert(out@.to_multiset() == mid.to_multiset().insert(y).remove(z));
                assert(out@.to_multiset() =~= cur.to_multiset());
                assert(out@ =~= before.take(j - 1).push(x) + before.skip(j - 1));
            }
            j = j - 1;
        }
        proof {
            assert forall|a: int, b: int| 0 <= a <= b < out@.len() implies
                (#[trigger] out@[a]).1 <= (#[trigger] out@[b]).1 by {
                if b == j && a != j {
                    assert(out@[j - 1].1 <= out@[j as int].1);
                    assert(out@[a].1 <= out@[j - 1].1);
                }
            }
            if j > 0 {
                assert(out@[j - 1] == before[j - 1]);
                assert(out@[j as int] == x);
            }
            lemma_insert_by_end_at(before, x, j as int);
            assert(intervals@.take(i + 1) == intervals@.take(i as int).push(x));
            assert(intervals@.take(i + 1).drop_last() =~= intervals@.take(i as int));
        }
        i = i + 1;
    }
    proof {
        assert(intervals@.take(intervals@.len() as int) == intervals@);
    }
    out
}

/// Greedy interval scheduling: the largest number of pairwise compatible
/// intervals, picked in order of end point.
///
/// The intervals are stably sorted by end point (`stable_by_end`, intervals
/// with equal ends keeping their input order); one is taken whenever it
/// starts no earlier than the end of the last one taken. The result is the
/// length of the longest chain of that order.
pub fn interval_scheduling(intervals: &[(i32, i32)]) -> (count: usize)
    ensures
        is_max_chain_len(stable_by_end(intervals@), count as int),
        exists|t: Seq<(i32, i32)>| #[trigger] t.to_multiset() == intervals@.to_multiset()
            && sorted_by_end(t) && is_max_chain_len(t, count as int),
{
    let sorted = sort_by_end(intervals);
    let n = sorted.len();
    let ghost t = sorted@;
    let mut count: usize = 0;
    let mut last_end: Option<i32> = None;
    let ghost mut chosen: Seq<int> = Seq::empty();
    let mut p: usize = 0;
    proof {
        assert forall|c: Seq<int>| #[trigger] is_chain(t, c, 0) implies c.len() == 0 by {
            if c.len() > 0 {
                assert(0 <= c[0]);
                assert(c[0] < 0);
            }
        }
    }
    while p < n
        invariant
            n == t.len(),
            t == sorted@,
            sorted_by_end(t),
            0 <= p <= n,
            count == chosen.len(),
            count <= p,
            is_chain(t, chosen, p as int),
            last_end is None <==> count == 0,
            count > 0 ==> last_end == Some(t[chosen.last()].1),
            forall|c: Seq<int>| #[trigger] is_chain(t, c, p as int) ==> c.len() <= count
                && (c.len() == count && count > 0 ==> last_end->0 <= t[c.last()].1),
        decreases n - p,
    {
        let (s, e) = sorted[p];
        let take = match last_end {
            None => true,
            Some(le) => s >= le,
        };
        let ghost old_chosen = chosen;
        let ghost old_count = count as int;
        let ghost old_last = last_end;
        if take {
            count = count + 1;
            last_end = Some(e);
            proof {
                chosen = chosen.push(p as int);
                assert(chosen.last() == p);
                assert forall|a: int| #![trigger chosen[a]] 0 < a < chosen.len() implies
                    chosen[a - 1] < chosen[a] && t[chosen[a - 1]].1 <= t[chosen[a]].0 by {
                    if a == chosen.len() - 1 {
                        assert(chosen[a - 1] == old_chosen.last());
                    } else {
                        assert(chosen[a - 1] == old_chosen[a - 1]);
                        assert(chosen[a] == old_chosen[a]);
                    }
                }
                assert forall|a: int| 0 <= a < chosen.len() implies 0 <= #[trigger] chosen[a] < p + 1 by {
                    if a < old_chosen.len() {
                        assert(chosen[a] == old_chosen[a]);
                    }
                }
            }
        }
        proof {
            if old_count > 0 {
                assert(old_chosen.last() < p) by {
                    assert(0 <= old_chosen[old_chosen.len() - 1] < p);
                }
                assert(old_last->0 <= t[p as int].1);
            }
            lemma_greedy_step(t, p as int, old_count, old_last, take, count as int, last_end);
        }
        p = p + 1;
    }
    proof {
        assert(is_chain(t, chosen, t.len() as int));
        assert(is_max_chain_len(t, count as int));
    }
    count
}

/// One step of the greedy scan keeps it ahead of every chain of the prefix.
proof fn lemma_greedy_step(
    t: Seq<(i32, i32)>,
    p: int,
    count0: int,
    last0: Option<i32>,
    take: bool,
    count1: int,
    last1: Option<i32>,
)
    requires
        sorted_by_end(t),
        0 <= p < t.len(),
        0 <= count0,
        forall|c: Seq<int>| #[trigger] is_chain(t, c, p) ==> c.len() <= count0
            && (c.len() == count0 && count0 > 0 ==> last0->0 <= t[c.last()].1),
        last0 is None <==> count0 == 0,
        count0 > 0 ==> last0->0 <= t[p].1,
        take == (last0 is None || t[p].0 >= last0->0),
        take ==> count1 == count0 + 1 && last1 == Some(t[p].1),
        !take ==> count1 == count0 && last1 == last0,
    ensures
        forall|c: Seq<int>| #[trigger] is_chain(t, c, p + 1) ==> c.len() <= count1
            && (c.len() == count1 && count1 > 0 ==> last1->0 <= t[c.last()].1),
{
    assert forall|c: Seq<int>| #[trigger] is_chain(t, c, p + 1) implies c.len() <= count1
        && (c.len() == count1 && count1 > 0 ==> last1->0 <= t[c.last()].1) by {
        if c.len() > 0 {
            if c.last() < p {
                lemma_chain_below(t, c, p);
                assert(c.len() <= count0);
            } else {
                lemma_chain_drop_last(t, c, p);
                let cp = c.drop_last();
                assert(cp.len() <= count0);
                assert(c.len() == cp.len() + 1);
                if !take {
                    assert(count0 > 0);
                    if cp.len() == count0 {
                        assert(last0->0 <= t[cp.last()].1);
                        assert(last0->0 <= t[p].0);
                        assert(false);
                    }
                    assert(c.len() <= count1);
                } else {
                    assert(c.len() <= count1);
                    if c.len() == count1 {
                        assert(last1->0 == t[p].1);
                    }
                }
            }
        }
    }
}

/// A chain below `p + 1` whose last position is below `p` is a chain below `p`.
proof fn lemma_chain_below(t: Seq<(i32, i32)>, c: Seq<int>, p: int)
    requires
        is_chain(t, c, p + 1),
        c.len() > 0,
        c.last() < p,
    ensures
        is_chain(t, c, p),
{
    assert forall|a: int| 0 <= a < c.len() implies 0 <= #[trigger] c[a] < p by {
        lemma_chain_increasing(t, c, p + 1, a, c.len() - 1);
    }
}

/// Dropping the last pick `p` of a chain leaves a chain below `p` whose last
/// interval ends no later than interval `p` starts.
proof fn lemma_chain_drop_last(t: Seq<(i32, i32)>, c: Seq<int>, p: int)
    requires
        is_chain(t, c, p + 1),
        c.len() > 0,
        c.last() >= p,
    ensures
        c.last() == p,
        is_chain(t, c.drop_last(), p),
        c.len() > 1 ==> t[c.drop_last().last()].1 <= t[p].0,
{
    let cp = c.drop_last();
    assert forall|a: int| 0 <= a < cp.len() implies 0 <= #[trigger] cp[a] < p by {
        assert(cp[a] == c[a]);
        lemma_chain_increasing(t, c, p + 1, a, c.len() - 2);
        assert(c[c.len() - 2] < c[c.len() - 1]);
    }
    assert forall|a: int| #![trigger cp[a]] 0 < a < cp.len() implies
        cp[a - 1] < cp[a] && t[cp[a - 1]].1 <= t[cp[a]].0 by {
        assert(cp[a] == c[a]);
        assert(cp[a - 1] == c[a - 1]);
    }
    if c.len() > 1 {
        assert(c[c.len() - 1] == p);
        assert(t[c[c.len() - 2]].1 <= t[c[c.len() - 1]].0);
    }
}

/// Positions in a chain increase.
proof fn lemma_chain_increasing(t: Seq<(i32, i32)>, c: Seq<int>, p: int, a: int, b: int)
    requires
        is_chain(t, c, p),
        0 <= a <= b < c.len(),
    ensures
        c[a] <= c[b],
    decreases b - a,
{
    if a < b {
        lemma_chain_increasing(t, c, p, a, b - 1);
        assert(c[b - 1] < c[b]);
    }
}

} // verus!
