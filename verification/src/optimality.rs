use vstd::prelude::*;

use crate::dp::{buy_best, lemma_mono_in_days, lemma_sell_nonneg, pick_max, sell_best};
use crate::schedule::{lemma_sell_days_sorted, lemma_wf_drop_last, profit, wf_schedule};

verus! {

/// No well-formed schedule of at most `t` pairs within days `0..=d` beats the
/// sell state.
pub proof fn lemma_schedule_le_sell(s: Seq<int>, ps: Seq<(int, int)>, t: nat, d: nat)
    requires
        d < s.len(),
        wf_schedule(d as int + 1, ps),
        ps.len() <= t,
    ensures
        profit(s, ps) <= sell_best(s, t, d),
    decreases ps.len(), d,
{
    lemma_sell_nonneg(s, t, d);
    if ps.len() > 0 {
        let b = ps.last().0;
        let sl = ps.last().1;
        let front = ps.drop_last();
        lemma_wf_drop_last(d as int + 1, ps);
        if sl < d {
            assert forall|i: int| 0 <= i < ps.len() implies (#[trigger] ps[i]).1 < d by {
                lemma_sell_days_sorted(d as int + 1, ps, i, ps.len() - 1);
            }
            assert(wf_schedule(d as int, ps));
            lemma_schedule_le_sell(s, ps, t, (d - 1) as nat);
            assert(sell_best(s, t, d) == pick_max(
                sell_best(s, t, (d - 1) as nat),
                buy_best(s, t, d) + s[d as int],
            ));
        } else {
            assert(sl == d);
            assert(d >= 1);
            assert forall|i: int| 0 <= i < front.len() implies (#[trigger] front[i]).1 < b by {
                lemma_sell_days_sorted(d as int + 1, ps, i, ps.len() - 2);
                assert(ps[ps.len() - 2].1 < ps[ps.len() - 1].0);
            }
            assert(wf_schedule(b, front));
            lemma_open_le_buy(s, front, t, b as nat, d);
            assert(profit(s, ps) == profit(s, front) + s[d as int] - s[b]);
            assert(sell_best(s, t, d) == pick_max(
                sell_best(s, t, (d - 1) as nat),
                buy_best(s, t, d) + s[d as int],
            ));
        }
    }
}

/// A schedule of at most `t - 1` pairs closed before day `b`, together with an
/// open buy on day `b`, never beats the buy state on any day `d >= b`.
proof fn lemma_open_le_buy(s: Seq<int>, ps: Seq<(int, int)>, t: nat, b: nat, d: nat)
    requires
        1 <= t,
        b <= d < s.len(),
        wf_schedule(b as int, ps),
        ps.len() <= t - 1,
    ensures
        profit(s, ps) - s[b as int] <= buy_best(s, t, d),
    decreases ps.len(), d,
{
    if b < d {
        lemma_open_le_buy(s, ps, t, b, (d - 1) as nat);
        assert(buy_best(s, t, d) == pick_max(
            buy_best(s, t, (d - 1) as nat),
            sell_best(s, (t - 1) as nat, d) - s[d as int],
        ));
    } else {
        if d == 0 {
            if ps.len() > 0 {
                assert(0 <= ps[0].0 < ps[0].1 < 0);
            }
            assert(profit(s, ps) == 0);
            assert(buy_best(s, t, 0) == -s[0]);
        } else {
            lemma_schedule_le_sell(s, ps, (t - 1) as nat, (d - 1) as nat);
            lemma_mono_in_days(s, (t - 1) as nat, (d - 1) as nat, d);
            assert(buy_best(s, t, d) == pick_max(
                buy_best(s, t, (d - 1) as nat),
                sell_best(s, (t - 1) as nat, d) - s[d as int],
            ));
        }
    }
}

/// The sell state is attained: some well-formed schedule of at most `t` pairs
/// within days `0..=d` earns exactly `sell_best(s, t, d)`.
pub proof fn lemma_sell_witness(s: Seq<int>, t: nat, d: nat) -> (ps: Seq<(int, int)>)
    requires
        d < s.len(),
    ensures
        wf_schedule(d as int + 1, ps),
        ps.len() <= t,
        profit(s, ps) == sell_best(s, t, d),
    decreases d, t, 1nat,
{
    if t == 0 {
        Seq::empty()
    } else if d == 0 {
        assert(buy_best(s, t, 0) == -s[0]);
        assert(sell_best(s, t, 0) == pick_max(0, buy_best(s, t, 0) + s[0]));
        Seq::empty()
    } else {
        let dm = (d - 1) as nat;
        assert(sell_best(s, t, d) == pick_max(
            sell_best(s, t, dm),
            buy_best(s, t, d) + s[d as int],
        ));
        if sell_best(s, t, d) == sell_best(s, t, dm) {
            let ps = lemma_sell_witness(s, t, dm);
            ps
        } else {
            assert(sell_best(s, t, d) == buy_best(s, t, d) + s[d as int]);
            let r = lemma_buy_witness(s, t, d);
            let ps0 = r.0;
            let b = r.1;
            if b == d {
                ps0
            } else {
                let ps = ps0.push((b, d as int));
                assert(ps.drop_last() =~= ps0);
                assert(ps.last() == (b, d as int));
                assert(profit(s, ps) == profit(s, ps0) + s[d as int] - s[b]);
                assert forall|i: int| 0 <= i < ps.len() implies 0 <= (#[trigger] ps[i]).0
                    < ps[i].1 < d + 1 by {
                    if i < ps0.len() {
                        assert(ps[i] == ps0[i]);
                    }
                }
                assert forall|i: int| 0 < i < ps.len() implies (#[trigger] ps[i]).0 > ps[i
                    - 1].1 by {
                    if i < ps0.len() {
                        assert(ps[i] == ps0[i]);
                        assert(ps[i - 1] == ps0[i - 1]);
                    } else {
                        assert(ps[i - 1] == ps0[i - 1]);
                    }
                }
                ps
            }
        }
    }
}

/// The buy state is attained: some schedule of at most `t - 1` pairs closed
/// before a buy day `b <= d` earns exactly `buy_best(s, t, d)` after paying
/// for the open buy.
proof fn lemma_buy_witness(s: Seq<int>, t: nat, d: nat) -> (r: (Seq<(int, int)>, int))
    requires
        1 <= t,
        d < s.len(),
    ensures
        wf_schedule(r.1, r.0),
        0 <= r.1 <= d,
        r.0.len() <= t - 1,
        profit(s, r.0) - s[r.1] == buy_best(s, t, d),
    decreases d, t, 0nat,
{
    if d == 0 {
        assert(buy_best(s, t, 0) == -s[0]);
        assert(profit(s, Seq::<(int, int)>::empty()) == 0);
        (Seq::empty(), 0)
    } else {
        let dm = (d - 1) as nat;
        let tm = (t - 1) as nat;
        assert(buy_best(s, t, d) == pick_max(
            buy_best(s, t, dm),
            sell_best(s, tm, d) - s[d as int],
        ));
        if buy_best(s, t, d) == buy_best(s, t, dm) {
            lemma_buy_witness(s, t, dm)
        } else {
            assert(buy_best(s, t, d) == sell_best(s, tm, d) - s[d as int]);
            let qs = lemma_sell_witness(s, tm, d);
            if qs.len() > 0 && qs.last().1 == d {
                let front = qs.drop_last();
                let b2 = qs.last().0;
                lemma_wf_drop_last(d as int + 1, qs);
                assert forall|i: int| 0 <= i < front.len() implies (#[trigger] front[i]).1
                    < b2 by {
                    lemma_sell_days_sorted(d as int + 1, qs, i, qs.len() - 2);
                    assert(qs[qs.len() - 2].1 < qs[qs.len() - 1].0);
                }
                assert(wf_schedule(b2, front));
                assert(profit(s, qs) == profit(s, front) + s[d as int] - s[b2]);
                (front, b2)
            } else {
                if qs.len() > 0 {
                    assert forall|i: int| 0 <= i < qs.len() implies (#[trigger] qs[i]).1
                        < d by {
                        lemma_sell_days_sorted(d as int + 1, qs, i, qs.len() - 1);
                    }
                }
                assert(wf_schedule(d as int, qs));
                (qs, d as int)
            }
        }
    }
}

} // verus!
