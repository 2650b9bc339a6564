use vstd::prelude::*;

verus! {

/// The larger of two integers.
pub open spec fn pick_max(a: int, b: int) -> int {
    if a >= b {
        a
    } else {
        b
    }
}

/// Best cash position over days `0..=d` while the `t`-th transaction is open:
/// the profit of at most `t - 1` completed transactions, minus the price paid
/// for the still-open buy, maximized over all such histories. Meaningful for
/// `1 <= t` and `d < s.len()`.
pub open spec fn buy_best(s: Seq<int>, t: nat, d: nat) -> int
    decreases d, t, 0nat,
{
    if t == 0 {
        0
    } else if d == 0 {
        -s[0]
    } else {
        pick_max(buy_best(s, t, (d - 1) as nat), sell_best(s, (t - 1) as nat, d) - s[d as int])
    }
}

/// Best profit over days `0..=d` with at most `t` completed transactions and
/// no open position. Meaningful for `d < s.len()`.
pub open spec fn sell_best(s: Seq<int>, t: nat, d: nat) -> int
    decreases d, t, 1nat,
{
    if t == 0 {
        0
    } else if d == 0 {
        pick_max(0, buy_best(s, t, 0) + s[0])
    } else {
        pick_max(sell_best(s, t, (d - 1) as nat), buy_best(s, t, d) + s[d as int])
    }
}

/// The optimal profit from at most `k` transactions over the whole sequence.
pub open spec fn opt_profit(s: Seq<int>, k: nat) -> int {
    if s.len() == 0 || k == 0 {
        0
    } else {
        sell_best(s, k, (s.len() - 1) as nat)
    }
}

/// Doing nothing is always on the table: the sell state is never negative.
pub proof fn lemma_sell_nonneg(s: Seq<int>, t: nat, d: nat)
    ensures
        sell_best(s, t, d) >= 0,
    decreases d,
{
    if t > 0 && d > 0 {
        lemma_sell_nonneg(s, t, (d - 1) as nat);
    }
}

/// Both states only improve as more days are taken into account.
pub proof fn lemma_mono_in_days(s: Seq<int>, t: nat, d1: nat, d2: nat)
    requires
        d1 <= d2,
    ensures
        sell_best(s, t, d1) <= sell_best(s, t, d2),
        buy_best(s, t, d1) <= buy_best(s, t, d2),
    decreases d2,
{
    if d1 < d2 {
        lemma_mono_in_days(s, t, d1, (d2 - 1) as nat);
    }
}

/// All prices lie in the signed 32-bit range.
pub open spec fn prices_bounded(s: Seq<int>) -> bool {
    forall|i: int| 0 <= i < s.len() ==> -0x8000_0000 <= #[trigger] s[i] < 0x8000_0000
}

/// With 32-bit prices, each completed transaction moves the cash position by
/// less than 2^32, which bounds both states linearly in `t`.
pub proof fn lemma_dp_range(s: Seq<int>, t: nat, d: nat)
    requires
        prices_bounded(s),
        d < s.len(),
    ensures
        0 <= sell_best(s, t, d) <= t as int * 0x1_0000_0000,
        t >= 1 ==> -0x8000_0000 <= buy_best(s, t, d) <= t as int * 0x1_0000_0000 - 0x8000_0000,
    decreases d, t,
{
    lemma_sell_nonneg(s, t, d);
    if t >= 1 {
        assert(-0x8000_0000 <= s[d as int] < 0x8000_0000);
        assert(t as int * 0x1_0000_0000 >= 0x1_0000_0000) by (nonlinear_arith)
            requires
                t >= 1,
        ;
        if d == 0 {
            assert(buy_best(s, t, 0) == -s[0]);
            assert(sell_best(s, t, 0) == pick_max(0, buy_best(s, t, 0) + s[0]));
        } else {
            let dm = (d - 1) as nat;
            let tm = (t - 1) as nat;
            lemma_dp_range(s, t, dm);
            lemma_dp_range(s, tm, d);
            assert(tm as int * 0x1_0000_0000 == t as int * 0x1_0000_0000 - 0x1_0000_0000)
                by (nonlinear_arith)
                requires
                    t >= 1 && tm == (t - 1) as nat,
            ;
            assert(buy_best(s, t, d) == pick_max(
                buy_best(s, t, dm),
                sell_best(s, tm, d) - s[d as int],
            ));
            assert(sell_best(s, t, d) == pick_max(
                sell_best(s, t, dm),
                buy_best(s, t, d) + s[d as int],
            ));
            assert(buy_best(s, t, d) <= t as int * 0x1_0000_0000 - 0x8000_0000);
            assert(sell_best(s, t, d) <= t as int * 0x1_0000_0000);
        }
    }
}

} // verus!
