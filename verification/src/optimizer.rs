use vstd::prelude::*;

use crate::dp::{buy_best, lemma_dp_range, opt_profit, pick_max, prices_bounded, sell_best};
use crate::ints;
use crate::laws::{lemma_attained, lemma_dominates, lemma_saturation};
use crate::schedule::{profit, wf_schedule};

verus! {

/// A sequence of 32-bit prices, read as integers, stays in the 32-bit range.
proof fn lemma_ints_bounded(q: Seq<i32>)
    ensures
        prices_bounded(ints(q)),
        ints(q).len() == q.len(),
        forall|i: int| 0 <= i < q.len() ==> ints(q)[i] == #[trigger] q[i] as int,
{
    assert forall|i: int| 0 <= i < ints(q).len() implies -0x8000_0000 <= #[trigger] ints(
        q,
    )[i] < 0x8000_0000 by {
        assert(ints(q)[i] == q[i] as int);
    }
}

/// Maximum total profit from at most `k` non-overlapping buy/sell round trips
/// over `prices`, one price per day: exactly the optimum over all well-formed
/// schedules of at most `k` pairs.
///
/// Each round trip moves the cash position by less than 2^32, and at most
/// half the days can carry one, so with fewer than 2^31 days of 32-bit prices
/// every intermediate value fits an `i64` and the result is exact.
pub fn max_profit(k: usize, prices: &[i32]) -> (r: i64)
    requires
        prices@.len() < 0x8000_0000,
    ensures
        r as int == opt_profit(ints(prices@), k as nat),
        forall|ps: Seq<(int, int)>|
            wf_schedule(prices@.len() as int, ps) && ps.len() <= k ==> #[trigger] profit(
                ints(prices@),
                ps,
            ) <= r as int,
        exists|ps: Seq<(int, int)>|
            wf_schedule(prices@.len() as int, ps) && ps.len() <= k && #[trigger] profit(
                ints(prices@),
                ps,
            ) == r as int,
{
    let ghost s = ints(prices@);
    proof {
        lemma_ints_bounded(prices@);
    }
    let n = prices.len();
    let r: i64;
    if n == 0 || k == 0 {
        r = 0;
        proof {
            assert(opt_profit(s, k as nat) == 0);
        }
    } else {
        let cap = n / 2;
        let kk = if k < cap {
            k
        } else {
            cap
        };
        if kk == 0 {
            // a single day leaves no room for a buy followed by a later sell
            r = 0;
            proof {
                assert(n == 1);
                assert(buy_best(s, k as nat, 0) == -s[0]);
                assert(sell_best(s, k as nat, 0) == pick_max(0, buy_best(s, k as nat, 0) + s[0]));
                assert(opt_profit(s, k as nat) == 0);
            }
        } else {
            let p0 = prices[0];
            // row `t` tracks the best cash position using at most `t`
            // transactions; on day 0 every open buy paid the day-0 price
            let mut buy: Vec<i64> = Vec::new();
            let mut sell: Vec<i64> = Vec::new();
            let mut j: usize = 0;
            while j <= kk
                invariant
                    j <= kk + 1,
                    kk < n,
                    buy@.len() == j,
                    sell@.len() == j,
                    p0 == prices@[0],
                    forall|u: int| 0 <= u < j ==> (#[trigger] buy@[u]) == -(p0 as i64),
                    forall|u: int| 0 <= u < j ==> (#[trigger] sell@[u]) == 0i64,
                decreases kk + 1 - j,
            {
                buy.push(-(p0 as i64));
                sell.push(0);
                j += 1;
            }
            proof {
                assert(s[0] == prices@[0] as int);
                assert forall|u: int| 1 <= u <= kk implies #[trigger] buy_best(s, u as nat, 0)
                    == -s[0] by {
                    assert(buy_best(s, u as nat, 0) == -s[0]);
                }
                assert forall|u: int| 0 <= u <= kk implies #[trigger] sell_best(s, u as nat, 0)
                    == 0 by {
                    if u > 0 {
                        assert(buy_best(s, u as nat, 0) == -s[0]);
                        assert(sell_best(s, u as nat, 0) == pick_max(
                            0,
                            buy_best(s, u as nat, 0) + s[0],
                        ));
                    }
                }
            }
            let mut d: usize = 1;
            while d < n
                invariant
                    1 <= d <= n,
                    1 <= kk,
                    kk <= n / 2,
                    n == s.len(),
                    n < 0x8000_0000,
                    s == ints(prices@),
                    prices_bounded(s),
                    buy@.len() == kk + 1,
                    sell@.len() == kk + 1,
                    forall|u: int|
                        1 <= u <= kk ==> (#[trigger] buy@[u]) as int == buy_best(
                            s,
                            u as nat,
                            (d - 1) as nat,
                        ),
                    forall|u: int|
                        0 <= u <= kk ==> (#[trigger] sell@[u]) as int == sell_best(
                            s,
                            u as nat,
                            (d - 1) as nat,
                        ),
                decreases n - d,
            {
                let p = prices[d];
                let pl = p as i64;
                proof {
                    assert(s[d as int] == prices@[d as int] as int);
                }
                let mut t: usize = 1;
                while t <= kk
                    invariant
                        1 <= t <= kk + 1,
                        1 <= d < n,
                        1 <= kk,
                        kk <= n / 2,
                        n == s.len(),
                        n < 0x8000_0000,
                        s == ints(prices@),
                        prices_bounded(s),
                        buy@.len() == kk + 1,
                        sell@.len() == kk + 1,
                        pl as int == s[d as int],
                        forall|u: int|
                            1 <= u < t ==> (#[trigger] buy@[u]) as int == buy_best(
                                s,
                                u as nat,
                                d as nat,
                            ),
                        forall|u: int|
                            0 <= u < t ==> (#[trigger] sell@[u]) as int == sell_best(
                                s,
                                u as nat,
                                d as nat,
                            ),
                        forall|u: int|
                            t <= u <= kk ==> (#[trigger] buy@[u]) as int == buy_best(
                                s,
                                u as nat,
                                (d - 1) as nat,
                            ),
                        forall|u: int|
                            t <= u <= kk ==> (#[trigger] sell@[u]) as int == sell_best(
                                s,
                                u as nat,
                                (d - 1) as nat,
                            ),
                    decreases kk + 1 - t,
                {
                    let ghost tn = t as nat;
                    let ghost tm = (t - 1) as nat;
                    let ghost dn = d as nat;
                    let ghost dm = (d - 1) as nat;
                    proof {
                        lemma_dp_range(s, tn, dm);
                        lemma_dp_range(s, tm, dn);
                        lemma_dp_range(s, tn, dn);
                        assert(sell_best(s, 0, dn) == 0);
                        assert(buy_best(s, tn, dn) == pick_max(
                            buy_best(s, tn, dm),
                            sell_best(s, tm, dn) - s[d as int],
                        ));
                        assert(sell_best(s, tn, dn) == pick_max(
                            sell_best(s, tn, dm),
                            buy_best(s, tn, dn) + s[d as int],
                        ));
                    }
                    let cand_buy = sell[t - 1] - pl;
                    let old_buy = buy[t];
                    let new_buy = if cand_buy > old_buy {
                        cand_buy
                    } else {
                        old_buy
                    };
                    buy[t] = new_buy;
                    proof {
                        assert(new_buy as int == buy_best(s, tn, dn));
                    }
                    let cand_sell = new_buy + pl;
                    let old_sell = sell[t];
                    let new_sell = if cand_sell > old_sell {
                        cand_sell
                    } else {
                        old_sell
                    };
                    sell[t] = new_sell;
                    proof {
                        assert(new_sell as int == sell_best(s, tn, dn));
                    }
                    t += 1;
                }
                d += 1;
            }
            r = sell[kk];
            proof {
                assert(r as int == sell_best(s, kk as nat, (n - 1) as nat));
                assert(opt_profit(s, kk as nat) == sell_best(s, kk as nat, (n - 1) as nat));
                if kk < k {
                    assert(kk == n / 2);
                    lemma_saturation(s, kk as nat, k as nat);
                }
            }
        }
    }
    proof {
        let ps = lemma_attained(s, k as nat);
        assert(wf_schedule(prices@.len() as int, ps) && ps.len() <= k && profit(s, ps)
            == r as int);
        assert forall|ps2: Seq<(int, int)>|
            wf_schedule(prices@.len() as int, ps2) && ps2.len() <= k implies #[trigger] profit(
            s,
            ps2,
        ) <= r as int by {
            lemma_dominates(s, k as nat, ps2);
        }
    }
    r
}

} // verus!
