use vstd::prelude::*;

use crate::dp::{lemma_sell_nonneg, opt_profit};
use crate::optimality::{lemma_schedule_le_sell, lemma_sell_witness};
use crate::schedule::{lemma_schedule_len, profit, wf_schedule};

verus! {

/// With no transaction allowed the optimum is zero, whatever the prices.
pub proof fn lemma_no_transactions(s: Seq<int>)
    ensures
        opt_profit(s, 0) == 0,
{
}

/// With no prices the optimum is zero, whatever the limit.
pub proof fn lemma_no_prices(k: nat)
    ensures
        opt_profit(Seq::<int>::empty(), k) == 0,
{
}

/// The optimum is never negative: doing nothing is always allowed.
pub proof fn lemma_nonnegative(s: Seq<int>, k: nat)
    ensures
        opt_profit(s, k) >= 0,
{
    if s.len() > 0 && k > 0 {
        lemma_sell_nonneg(s, k, (s.len() - 1) as nat);
    }
}

/// Dominance: no well-formed schedule within the limit beats the optimum.
pub proof fn lemma_dominates(s: Seq<int>, k: nat, ps: Seq<(int, int)>)
    requires
        wf_schedule(s.len() as int, ps),
        ps.len() <= k,
    ensures
        profit(s, ps) <= opt_profit(s, k),
{
    if s.len() == 0 || k == 0 {
        if ps.len() > 0 {
            assert(0 <= ps[0].0 < ps[0].1 < s.len());
        }
        assert(profit(s, ps) == 0);
    } else {
        lemma_schedule_le_sell(s, ps, k, (s.len() - 1) as nat);
    }
}

/// Attainment: the optimum is the profit of some well-formed schedule within
/// the limit.
pub proof fn lemma_attained(s: Seq<int>, k: nat) -> (ps: Seq<(int, int)>)
    ensures
        wf_schedule(s.len() as int, ps),
        ps.len() <= k,
        profit(s, ps) == opt_profit(s, k),
{
    if s.len() == 0 || k == 0 {
        Seq::empty()
    } else {
        lemma_sell_witness(s, k, (s.len() - 1) as nat)
    }
}

/// The optimum never falls as the transaction limit grows.
pub proof fn lemma_monotone_in_limit(s: Seq<int>, k1: nat, k2: nat)
    requires
        k1 <= k2,
    ensures
        opt_profit(s, k1) <= opt_profit(s, k2),
{
    let ps = lemma_attained(s, k1);
    lemma_dominates(s, k2, ps);
}

/// Saturation: once the limit reaches half the number of days, raising it
/// further changes nothing, since a schedule spends at least two days per pair.
pub proof fn lemma_saturation(s: Seq<int>, k1: nat, k2: nat)
    requires
        s.len() / 2 <= k1 <= k2,
    ensures
        opt_profit(s, k1) == opt_profit(s, k2),
{
    lemma_monotone_in_limit(s, k1, k2);
    let ps = lemma_attained(s, k2);
    lemma_schedule_len(s.len() as int, ps);
    lemma_dominates(s, k1, ps);
}

} // verus!
