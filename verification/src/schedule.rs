use vstd::prelude::*;

verus! {

/// A trading schedule over `n` days: buy/sell day pairs, each buying strictly
/// before selling, selling within the `n` days, and each pair closed strictly
/// before the next one opens (at most one open position at a time).
pub open spec fn wf_schedule(n: int, ps: Seq<(int, int)>) -> bool {
    &&& forall|i: int| 0 <= i < ps.len() ==> 0 <= (#[trigger] ps[i]).0 < ps[i].1 < n
    &&& forall|i: int| 0 < i < ps.len() ==> (#[trigger] ps[i]).0 > ps[i - 1].1
}

/// Total profit of a schedule: the sum over its pairs of sell-day price minus
/// buy-day price.
pub open spec fn profit(s: Seq<int>, ps: Seq<(int, int)>) -> int
    decreases ps.len(),
{
    if ps.len() == 0 {
        0
    } else {
        profit(s, ps.drop_last()) + s[ps.last().1] - s[ps.last().0]
    }
}

/// Pairs come in increasing day order, so sell days grow along the schedule.
pub proof fn lemma_sell_days_sorted(n: int, ps: Seq<(int, int)>, i: int, j: int)
    requires
        wf_schedule(n, ps),
        0 <= i <= j < ps.len(),
    ensures
        ps[i].1 <= ps[j].1,
    decreases j - i,
{
    if i < j {
        lemma_sell_days_sorted(n, ps, i, j - 1);
    }
}

/// Removing the last pair keeps a schedule well formed.
pub proof fn lemma_wf_drop_last(n: int, ps: Seq<(int, int)>)
    requires
        wf_schedule(n, ps),
        ps.len() > 0,
    ensures
        wf_schedule(n, ps.drop_last()),
{
    let q = ps.drop_last();
    assert forall|i: int| 0 <= i < q.len() implies 0 <= (#[trigger] q[i]).0 < q[i].1 < n by {
        assert(q[i] == ps[i]);
    }
    assert forall|i: int| 0 < i < q.len() implies (#[trigger] q[i]).0 > q[i - 1].1 by {
        assert(q[i] == ps[i]);
        assert(q[i - 1] == ps[i - 1]);
    }
}

/// The `i`-th pair cannot start before day `2 i`: every earlier pair takes two
/// earlier days of its own.
proof fn lemma_pair_days_grow(n: int, ps: Seq<(int, int)>, i: int)
    requires
        wf_schedule(n, ps),
        0 <= i < ps.len(),
    ensures
        ps[i].0 >= 2 * i,
        ps[i].1 >= 2 * i + 1,
    decreases i,
{
    if i > 0 {
        lemma_pair_days_grow(n, ps, i - 1);
    }
}

/// A well-formed schedule over `n` days holds at most `n / 2` pairs.
pub proof fn lemma_schedule_len(n: int, ps: Seq<(int, int)>)
    requires
        n >= 0,
        wf_schedule(n, ps),
    ensures
        ps.len() <= n / 2,
{
    if ps.len() > 0 {
        let last = ps.len() - 1;
        lemma_pair_days_grow(n, ps, last);
        assert(2 * last + 1 <= ps[last].1 < n);
        assert(2 * (ps.len() as int) <= n);
        assert(ps.len() as int <= n / 2) by (nonlinear_arith)
            requires
                2 * (ps.len() as int) <= n,
        ;
    }
}

} // verus!
