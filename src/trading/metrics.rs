//! Figures derived from a sequence of closed trades.
use vstd::prelude::*;
use crate::models::{ClosedTrade, closed_ok, pnl_bound, sum_pnl};

verus! {

/// Largest magnitude of cumulative pnl that drawdown figures accept.
pub const MAX_CUMULATIVE: i128 = 0x10_0000_0000_0000_0000_0000_0000;

/// Running peak, largest drawdown from it, and that drawdown in basis
/// points of its peak, over the first `n` values of a cumulative pnl
/// series (`n >= 1`). The percentage is taken where the drawdown grows and
/// the peak is positive; otherwise it keeps its last value.
pub open spec fn dd_fold(c: Seq<i128>, n: int) -> (int, int, int)
    decreases n,
{
    if n <= 1 {
        (c[0] as int, 0, 0)
    } else {
        let prev = dd_fold(c, n - 1);
        let x = c[n - 1] as int;
        let peak = if x > prev.0 { x } else { prev.0 };
        let d = peak - x;
        if d > prev.1 {
            (peak, d, if peak > 0 { d * 10000 / peak } else { prev.2 })
        } else {
            (peak, prev.1, prev.2)
        }
    }
}

/// Largest drawdown of a cumulative pnl series: (basis points of the peak,
/// amount); zero for an empty series.
pub open spec fn max_drawdown_of(c: Seq<i128>) -> (int, int) {
    if c.len() == 0 {
        (0, 0)
    } else {
        let r = dd_fold(c, c.len() as int);
        (r.2, r.1)
    }
}

/// Running maximum of the first `n` values.
pub open spec fn running_peak(c: Seq<i128>, n: int) -> int
    decreases n,
{
    if n <= 1 {
        c[0] as int
    } else {
        let p = running_peak(c, n - 1);
        if c[n - 1] > p { c[n - 1] as int } else { p }
    }
}

/// Values of the series within `MAX_CUMULATIVE`.
pub open spec fn series_ok(c: Seq<i128>) -> bool {
    forall|i: int| 0 <= i < c.len() ==> -MAX_CUMULATIVE <= #[trigger] c[i] <= MAX_CUMULATIVE
}

/// The fold's peak is the running maximum, its drawdown is reached by some
/// value below an earlier one and bounds every such fall.
pub proof fn lemma_dd_fold(c: Seq<i128>, n: int)
    requires
        1 <= n <= c.len(),
    ensures
        dd_fold(c, n).0 == running_peak(c, n),
        dd_fold(c, n).1 >= 0,
        forall|i: int, j: int| 0 <= i <= j < n ==> dd_fold(c, n).1 >= c[i] - c[j],
        exists|i: int, j: int| 0 <= i <= j < n && dd_fold(c, n).1 == c[i] - c[j],
        forall|i: int| 0 <= i < n ==> running_peak(c, n) >= c[i],
        exists|i: int| 0 <= i < n && running_peak(c, n) == c[i],
    decreases n,
{
    if n == 1 {
        assert(dd_fold(c, n).1 == c[0] - c[0]);
        assert(running_peak(c, n) == c[0]);
    } else {
        lemma_dd_fold(c, n - 1);
        let prev = dd_fold(c, n - 1);
        let x = c[n - 1] as int;
        assert forall|i: int, j: int| 0 <= i <= j < n implies dd_fold(c, n).1 >= c[i] - c[j] by {
            if j == n - 1 {
                if i < n - 1 {
                    assert(running_peak(c, n - 1) >= c[i]);
                }
            }
        }
        let (i0, j0) = choose|i: int, j: int| 0 <= i <= j < n - 1 && prev.1 == c[i] - c[j];
        let k0 = choose|k: int| 0 <= k < n - 1 && running_peak(c, n - 1) == c[k];
        if x > prev.0 {
            assert(dd_fold(c, n).1 == c[i0] - c[j0]);
            assert(running_peak(c, n) == c[n - 1]);
        } else {
            assert(running_peak(c, n) == c[k0]);
            if prev.0 - x > prev.1 {
                assert(dd_fold(c, n).1 == c[k0] - c[n - 1]);
            } else {
                assert(dd_fold(c, n).1 == c[i0] - c[j0]);
            }
        }
    }
}

/// Largest drawdown of a cumulative pnl series as (basis points of the
/// peak, amount). The amount is the largest fall from a running peak: it is
/// at least every `c[i] - c[j]` with `i <= j`, and equals one of them.
pub fn calculate_max_drawdown(cumulative_pnl: &[i128]) -> (r: (i128, i128))
    requires
        series_ok(cumulative_pnl@),
    ensures
        r == (max_drawdown_of(cumulative_pnl@).0 as i128, max_drawdown_of(cumulative_pnl@).1 as i128),
        r.1 == max_drawdown_of(cumulative_pnl@).1,
        r.1 >= 0,
        forall|i: int, j: int| 0 <= i <= j < cumulative_pnl@.len() ==> r.1 >= cumulative_pnl@[i] - cumulative_pnl@[j],
        cumulative_pnl@.len() > 0 ==> exists|i: int, j: int|
            0 <= i <= j < cumulative_pnl@.len() && r.1 == cumulative_pnl@[i] - cumulative_pnl@[j],
{
    let c = cumulative_pnl;
    if c.len() == 0 {
        return (0, 0);
    }
    let mut peak: i128 = c[0];
    let mut value: i128 = 0;
    let mut pct: i128 = 0;
    let mut k: usize = 1;
    while k < c.len()
        invariant
            1 <= k <= c@.len(),
            series_ok(c@),
            (peak as int, value as int, pct as int) == dd_fold(c@, k as int),
            -MAX_CUMULATIVE <= peak <= MAX_CUMULATIVE,
            0 <= value <= 2 * MAX_CUMULATIVE,
            0 <= pct <= 10000 * 2 * MAX_CUMULATIVE,
        decreases c@.len() - k,
    {
        let x = c[k];
        if x > peak {
            peak = x;
        }
        let d = peak - x;
        if d > value {
            value = d;
            if peak > 0 {
                proof {
                    assert(0 <= d * 10000 <= 2 * MAX_CUMULATIVE * 10000);
                    vstd::arithmetic::div_mod::lemma_div_is_ordered_by_denominator(d * 10000, 1, peak as int);
                    vstd::arithmetic::div_mod::lemma_div_pos_is_pos(d * 10000, peak as int);
                }
                pct = (d * 10000) / peak;
            }
        }
        k = k + 1;
    }
    proof {
        lemma_dd_fold(c@, c@.len() as int);
    }
    (pct, value)
}

/// Running totals of the pnl of closed trades.
pub open spec fn cumulative_of(closed: Seq<ClosedTrade>) -> Seq<i128> {
    Seq::new(closed.len(), |i: int| sum_pnl(closed.subrange(0, i + 1)) as i128)
}

/// Running totals of the pnl of closed trades (see `cumulative_of`).
pub fn cumulative_pnl(closed: &[ClosedTrade]) -> (r: Vec<i128>)
    requires
        closed_ok(closed@),
    ensures
        r@ == cumulative_of(closed@),
{
    let mut out: Vec<i128> = Vec::new();
    let mut acc: i128 = 0;
    let mut i: usize = 0;
    while i < closed.len()
        invariant
            i <= closed@.len(),
            closed_ok(closed@),
            acc == sum_pnl(closed@.subrange(0, i as int)),
            -pnl_bound() * i <= acc <= pnl_bound() * i,
            pnl_bound() == 4611686018427387904,
            out@.len() == i,
            forall|k: int| 0 <= k < i ==> #[trigger] out@[k] == cumulative_of(closed@)[k],
        decreases closed@.len() - i,
    {
        proof {
            assert(closed@.subrange(0, i + 1).drop_last() =~= closed@.subrange(0, i as int));
            assert(closed@.subrange(0, i + 1).last() == closed@[i as int]);
            assert(i < 0x1_0000_0000_0000_0000);
            assert(pnl_bound() * (i + 1) == pnl_bound() * i + pnl_bound()) by (nonlinear_arith);
            assert(pnl_bound() * (i + 1) <= pnl_bound() * 0x1_0000_0000_0000_0000) by (nonlinear_arith)
                requires
                    i < 0x1_0000_0000_0000_0000,
            {
            }
        }
        acc = acc + closed[i].pnl;
        out.push(acc);
        i = i + 1;
    }
    proof {
        assert(out@ =~= cumulative_of(closed@));
    }
    out
}

/// Number of closed trades with positive pnl.
pub open spec fn win_count(closed: Seq<ClosedTrade>) -> int
    decreases closed.len(),
{
    if closed.len() == 0 { 0 } else { win_count(closed.drop_last()) + if closed.last().pnl > 0 { 1int } else { 0 } }
}

/// Number of closed trades with negative pnl.
pub open spec fn loss_count(closed: Seq<ClosedTrade>) -> int
    decreases closed.len(),
{
    if closed.len() == 0 { 0 } else { loss_count(closed.drop_last()) + if closed.last().pnl < 0 { 1int } else { 0 } }
}

/// Sum of the positive pnl.
pub open spec fn gross_profit_of(closed: Seq<ClosedTrade>) -> int
    decreases closed.len(),
{
    if closed.len() == 0 { 0 } else { gross_profit_of(closed.drop_last()) + if closed.last().pnl > 0 { closed.last().pnl as int } else { 0 } }
}

/// Sum of the magnitudes of the negative pnl.
pub open spec fn gross_loss_of(closed: Seq<ClosedTrade>) -> int
    decreases closed.len(),
{
    if closed.len() == 0 { 0 } else { gross_loss_of(closed.drop_last()) + if closed.last().pnl < 0 { -(closed.last().pnl as int) } else { 0 } }
}

/// Summary of closed trades. Ratios (win rate, averages, profit factor,
/// Sharpe ratio) follow from these counts and sums.
#[derive(Clone, Copy, Debug, PartialEq, Eq, Structural)]
pub struct TradingMetrics {
    pub total_trades: u64,
    pub winning_trades: u64,
    pub losing_trades: u64,
    pub total_pnl: i128,
    pub max_drawdown: i128,
    pub gross_profit: i128,
    pub gross_loss: i128,
}

impl Default for TradingMetrics {
    fn default() -> (r: TradingMetrics)
        ensures
            r == (TradingMetrics {
                total_trades: 0,
                winning_trades: 0,
                losing_trades: 0,
                total_pnl: 0,
                max_drawdown: 0,
                gross_profit: 0,
                gross_loss: 0,
            }),
    {
        TradingMetrics {
            total_trades: 0,
            winning_trades: 0,
            losing_trades: 0,
            total_pnl: 0,
            max_drawdown: 0,
            gross_profit: 0,
            gross_loss: 0,
        }
    }
}

/// Accumulates closed trades and their running pnl.
pub struct MetricsCalculator {
    closed_trades: Vec<ClosedTrade>,
    cumulative_pnl: Vec<i128>,
}

impl MetricsCalculator {
    /// The closed trades added so far, in order.
    pub closed spec fn closed(&self) -> Seq<ClosedTrade> {
        self.closed_trades@
    }

    /// The running pnl after each closed trade.
    pub closed spec fn cumulative(&self) -> Seq<i128> {
        self.cumulative_pnl@
    }

    /// Running totals match the trades and stay within bounds.
    pub closed spec fn wf(&self) -> bool {
        &&& self.cumulative_pnl@ == cumulative_of(self.closed_trades@)
        &&& closed_ok(self.closed_trades@)
        &&& series_ok(self.cumulative_pnl@)
        &&& self.closed_trades@.len() <= u64::MAX
    }

    /// Running pnl after the trades so far.
    pub open spec fn running(&self) -> int {
        sum_pnl(self.closed())
    }

    pub fn new() -> (r: MetricsCalculator)
        ensures
            r.wf(),
            r.closed().len() == 0,
            r.cumulative().len() == 0,
            r.cumulative() == cumulative_of(r.closed()),
    {
        let r = MetricsCalculator { closed_trades: Vec::new(), cumulative_pnl: Vec::new() };
        proof {
            assert(r.cumulative_pnl@ =~= cumulative_of(r.closed_trades@));
        }
        r
    }

    /// Adds a closed trade; the running pnl must stay within
    /// `MAX_CUMULATIVE` and the trade's pnl within the bound of one match.
    pub fn add_closed_trade(&mut self, trade: ClosedTrade)
        requires
            old(self).wf(),
            old(self).closed().len() < u64::MAX,
            -pnl_bound() <= trade.pnl <= pnl_bound(),
            -MAX_CUMULATIVE <= old(self).running() + trade.pnl <= MAX_CUMULATIVE,
        ensures
            final(self).wf(),
            final(self).closed() == old(self).closed().push(trade),
            final(self).cumulative() == old(self).cumulative().push((old(self).running() + trade.pnl) as i128),
            final(self).cumulative() == cumulative_of(final(self).closed()),
    {
        let ghost c0 = self.closed_trades@;
        let n = self.cumulative_pnl.len();
        let cumulative = if n > 0 {
            proof {
                assert(c0.subrange(0, n as int) =~= c0);
                assert(self.cumulative_pnl@[n - 1] == sum_pnl(c0));
            }
            self.cumulative_pnl[n - 1] + trade.pnl
        } else {
            trade.pnl
        };
        self.closed_trades.push(trade);
        self.cumulative_pnl.push(cumulative);
        proof {
            let c1 = self.closed_trades@;
            assert(c1.drop_last() =~= c0);
            assert(c1.subrange(0, c1.len() as int) =~= c1);
            assert forall|i: int| 0 <= i < c1.len() implies #[trigger] self.cumulative_pnl@[i] == cumulative_of(c1)[i] by {
                if i < c0.len() {
                    assert(c1.subrange(0, i + 1) =~= c0.subrange(0, i + 1));
                }
            }
            assert(self.cumulative_pnl@ =~= cumulative_of(c1));
            assert forall|i: int| 0 <= i < c1.len() implies -pnl_bound() <= (#[trigger] c1[i]).pnl <= pnl_bound() by {
                if i < c0.len() {
                    assert(c1[i] == c0[i]);
                }
            }
        }
    }

    /// Counts, sums and the largest drawdown of the trades so far; all zero
    /// without trades.
    pub fn calculate_metrics(&self) -> (r: TradingMetrics)
        requires
            self.wf(),
        ensures
            r.total_trades == self.closed().len(),
            r.winning_trades == win_count(self.closed()),
            r.losing_trades == loss_count(self.closed()),
            r.total_pnl == sum_pnl(self.closed()),
            r.max_drawdown == max_drawdown_of(self.cumulative()).1,
            self.cumulative() == cumulative_of(self.closed()),
            r.max_drawdown == max_drawdown_of(cumulative_of(self.closed())).1,
            r.max_drawdown >= 0,
            forall|i: int, j: int| 0 <= i <= j < self.closed().len() ==> r.max_drawdown >= cumulative_of(self.closed())[i]
                - cumulative_of(self.closed())[j],
            self.closed().len() > 0 ==> exists|i: int, j: int|
                0 <= i <= j < self.closed().len() && r.max_drawdown == cumulative_of(self.closed())[i]
                    - cumulative_of(self.closed())[j],
            r.gross_profit == gross_profit_of(self.closed()),
            r.gross_loss == gross_loss_of(self.closed()),
    {
        let ghost cs = self.closed_trades@;
        let mut wins: u64 = 0;
        let mut losses: u64 = 0;
        let mut total: i128 = 0;
        let mut profit: i128 = 0;
        let mut loss: i128 = 0;
        let mut i: usize = 0;
        while i < self.closed_trades.len()
            invariant
                i <= cs.len(),
                cs == self.closed_trades@,
                cs.len() <= u64::MAX,
                closed_ok(cs),
                wins == win_count(cs.subrange(0, i as int)),
                losses == loss_count(cs.subrange(0, i as int)),
                total == sum_pnl(cs.subrange(0, i as int)),
                profit == gross_profit_of(cs.subrange(0, i as int)),
                loss == gross_loss_of(cs.subrange(0, i as int)),
                wins <= i && losses <= i,
                -pnl_bound() * i <= total <= pnl_bound() * i,
                0 <= profit <= pnl_bound() * i,
                0 <= loss <= pnl_bound() * i,
                pnl_bound() == 4611686018427387904,
            decreases cs.len() - i,
        {
            let ghost sub = cs.subrange(0, i + 1);
            proof {
                assert(sub.drop_last() =~= cs.subrange(0, i as int));
                assert(sub.last() == cs[i as int]);
                assert(i < 0x1_0000_0000_0000_0000);
                assert(pnl_bound() * (i + 1) == pnl_bound() * i + pnl_bound()) by (nonlinear_arith);
                assert(pnl_bound() * (i + 1) <= pnl_bound() * 0x1_0000_0000_0000_0000) by (nonlinear_arith)
                    requires
                        i < 0x1_0000_0000_0000_0000,
                {
                }
            }
            let p = self.closed_trades[i].pnl;
            total = total + p;
            if p > 0 {
                wins = wins + 1;
                profit = profit + p;
            } else if p < 0 {
                losses = losses + 1;
                loss = loss - p;
            }
            i = i + 1;
        }
        proof {
            assert(cs.subrange(0, i as int) =~= cs);
        }
        let (_, dd) = calculate_max_drawdown(self.cumulative_pnl.as_slice());
        TradingMetrics {
            total_trades: self.closed_trades.len() as u64,
            winning_trades: wins,
            losing_trades: losses,
            total_pnl: total,
            max_drawdown: dd,
            gross_profit: profit,
            gross_loss: loss,
        }
    }

    pub fn get_cumulative_pnl(&self) -> (r: &Vec<i128>)
        requires
            self.wf(),
        ensures
            r@ == self.cumulative(),
            r@ == cumulative_of(self.closed()),
    {
        &self.cumulative_pnl
    }

    pub fn get_closed_trades(&self) -> (r: &Vec<ClosedTrade>)
        ensures
            r@ == self.closed(),
    {
        &self.closed_trades
    }
}

} // verus!
