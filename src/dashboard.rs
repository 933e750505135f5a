//! Capital usage of a finished run, from its ledger.
use vstd::prelude::*;
use crate::ledger::TradeState;
use crate::models::{
    ClosedTrade, PnLResult, Side, Trade, MAX_PRICE, MAX_QUANTITY, all_in_bounds, closed_ok,
    pnl_bound, signed_qty, sum_closed, sum_pnl,
};
use crate::order_book::{OrderBook, mid_of};
use crate::pnl::calculator::filled_of;

verus! {

/// Largest ledger the dashboard accounts for.
pub const MAX_LEDGER: usize = 0x1000_0000;

/// Margin rate denominator: rates are in millionths.
pub const MARGIN_SCALE: i128 = 1000000;

/// Capital figures of one step of the position.
#[derive(Clone, Copy, Debug, PartialEq, Eq, Structural)]
pub struct CapitalPoint {
    pub time: i64,
    pub required_capital: i128,
    pub unrealized_pnl: i128,
    pub margin: i128,
    pub open_value: i128,
}

/// Summary of the capital series.
#[derive(Clone, Copy, Debug, PartialEq, Eq, Structural)]
pub struct CapitalMetrics {
    pub max_required_capital: i128,
    pub max_drawdown: i128,
    pub max_open_positions_value: i128,
    pub average_capital_utilization: i128,
    pub peak_margin_requirement: i128,
    pub max_unrealized_loss: i128,
}

/// Magnitude of `x`.
pub open spec fn abs(x: int) -> int {
    if x < 0 { -x } else { x }
}

/// First book at or after `start` whose time is not before `time`, or the
/// number of books.
pub open spec fn book_at(books: Seq<OrderBook>, start: int, time: int) -> int
    decreases books.len() - start,
{
    if start >= books.len() || books[start].current_time >= time {
        start
    } else {
        book_at(books, start + 1, time)
    }
}

/// Capital figures of a position of `qty` at average `avg` marked at
/// `price`: open value |qty|·price, margin value·rate, unrealized pnl, and
/// required capital = margin + max(0, −unrealized) + 2% of value. A flat
/// position needs nothing.
pub open spec fn capital_at(qty: int, avg: int, price: int, margin_ppm: int, time: i64) -> CapitalPoint {
    if qty == 0 {
        CapitalPoint { time, required_capital: 0, unrealized_pnl: 0, margin: 0, open_value: 0 }
    } else {
        let value = abs(qty) * price;
        let upnl = if qty > 0 { (price - avg) * qty } else { (avg - price) * abs(qty) };
        let margin = value * margin_ppm / MARGIN_SCALE as int;
        let loss = if upnl < 0 { -upnl } else { 0 };
        CapitalPoint {
            time,
            required_capital: (margin + loss + value * 2 / 100) as i128,
            unrealized_pnl: upnl as i128,
            margin: margin as i128,
            open_value: value as i128,
        }
    }
}

/// State of the walk over the fills: position quantity, average price,
/// index of the current book, and the capital series so far.
pub open spec fn walk(trades: Seq<Trade>, books: Seq<OrderBook>, sym: Seq<char>, margin_ppm: int) -> (int, int, int, Seq<CapitalPoint>)
    decreases trades.len(),
{
    if trades.len() == 0 {
        (0, 0, 0, seq![])
    } else {
        let prev = walk(trades.drop_last(), books, sym, margin_ppm);
        let t = trades.last();
        if t.symbol@ != sym {
            prev
        } else {
            let idx = book_at(books, prev.2, t.time as int);
            let price = if idx < books.len() { mid_of(books[idx].bids@, books[idx].asks@) } else { t.price as int };
            let q0 = prev.0;
            let a0 = prev.1;
            let tq = signed_qty(t.side, t.quantity as int);
            let avg = if q0 == 0 {
                t.price as int
            } else if (q0 > 0 && tq > 0) || (q0 < 0 && tq < 0) {
                (abs(q0) * a0 + abs(tq) * t.price) / (abs(q0) + abs(tq))
            } else {
                a0
            };
            let nq = q0 + tq;
            let (q1, a1) = if nq == 0 { (0, 0) } else { (nq, avg) };
            (q1, a1, idx, prev.3.push(capital_at(q1, a1, price, margin_ppm, t.time)))
        }
    }
}

/// Largest required capital over the series, and zero.
pub open spec fn max_capital(p: Seq<CapitalPoint>) -> int
    decreases p.len(),
{
    if p.len() == 0 { 0 } else {
        let m = max_capital(p.drop_last());
        if p.last().required_capital > m { p.last().required_capital as int } else { m }
    }
}

/// Largest open value over the series, and zero.
pub open spec fn max_value(p: Seq<CapitalPoint>) -> int
    decreases p.len(),
{
    if p.len() == 0 { 0 } else {
        let m = max_value(p.drop_last());
        if p.last().open_value > m { p.last().open_value as int } else { m }
    }
}

/// Largest margin over the series, and zero.
pub open spec fn max_margin(p: Seq<CapitalPoint>) -> int
    decreases p.len(),
{
    if p.len() == 0 { 0 } else {
        let m = max_margin(p.drop_last());
        if p.last().margin > m { p.last().margin as int } else { m }
    }
}

/// Smallest unrealized pnl over the series, and zero.
pub open spec fn min_pnl(p: Seq<CapitalPoint>) -> int
    decreases p.len(),
{
    if p.len() == 0 { 0 } else {
        let m = min_pnl(p.drop_last());
        if p.last().unrealized_pnl < m { p.last().unrealized_pnl as int } else { m }
    }
}

/// Sum of required capital over the series.
pub open spec fn sum_capital(p: Seq<CapitalPoint>) -> int
    decreases p.len(),
{
    if p.len() == 0 { 0 } else { sum_capital(p.drop_last()) + p.last().required_capital }
}

/// Summary of a capital series: maxima of required capital, open value and
/// margin, the mean required capital (rounded down), and the largest
/// unrealized loss (reported both as drawdown and as loss); all zero for an
/// empty series.
pub open spec fn summary_of(pts: Seq<CapitalPoint>) -> CapitalMetrics {
    if pts.len() == 0 {
        CapitalMetrics {
            max_required_capital: 0,
            max_drawdown: 0,
            max_open_positions_value: 0,
            average_capital_utilization: 0,
            peak_margin_requirement: 0,
            max_unrealized_loss: 0,
        }
    } else {
        CapitalMetrics {
            max_required_capital: max_capital(pts) as i128,
            max_drawdown: -min_pnl(pts) as i128,
            max_open_positions_value: max_value(pts) as i128,
            average_capital_utilization: (sum_capital(pts) / pts.len() as int) as i128,
            peak_margin_requirement: max_margin(pts) as i128,
            max_unrealized_loss: -min_pnl(pts) as i128,
        }
    }
}

/// Counts of a run's proposals. The fill rate is `successful_trades /
/// total_attempted_trades`.
#[derive(Clone, Copy, Debug, PartialEq, Eq, Structural)]
pub struct TradingCosts {
    pub total_attempted_trades: u64,
    pub successful_trades: u64,
    pub failed_trades: u64,
    pub buy_trades: u64,
    pub sell_trades: u64,
}

/// Number of trades on `side`.
pub open spec fn side_count(ts: Seq<Trade>, side: Side) -> int
    decreases ts.len(),
{
    if ts.len() == 0 { 0 } else { side_count(ts.drop_last(), side) + if ts.last().side == side { 1int } else { 0 } }
}

/// Bound on every figure of one capital point.
pub open spec fn point_ok(p: CapitalPoint) -> bool {
    &&& 0 <= p.required_capital <= 0x1000_0000_0000_0000_0000_0000
    &&& -0x1000_0000_0000_0000_0000_0000 <= p.unrealized_pnl <= 0x1000_0000_0000_0000_0000_0000
    &&& 0 <= p.margin <= 0x1000_0000_0000_0000_0000_0000
    &&& 0 <= p.open_value <= 0x1000_0000_0000_0000_0000_0000
}

/// Books whose levels lie within the accepted bounds.
pub open spec fn books_ok(books: Seq<OrderBook>) -> bool {
    forall|i: int| 0 <= i < books.len() ==> (#[trigger] books[i]).in_bounds()
}

pub proof fn lemma_book_at(books: Seq<OrderBook>, start: int, time: int)
    requires
        0 <= start <= books.len(),
    ensures
        start <= book_at(books, start, time) <= books.len(),
    decreases books.len() - start,
{
    if start < books.len() && books[start].current_time < time {
        lemma_book_at(books, start + 1, time);
    }
}

/// Capital figures of one step (see `capital_at`).
fn capital_point(qty: i128, avg: u64, price: u64, margin_ppm: u64, time: i64) -> (r: CapitalPoint)
    requires
        -0x800_0000_0000_0000 <= qty <= 0x800_0000_0000_0000,
        avg <= MAX_PRICE,
        price <= MAX_PRICE,
        margin_ppm <= MARGIN_SCALE,
    ensures
        r == capital_at(qty as int, avg as int, price as int, margin_ppm as int, time),
        point_ok(r),
{
    if qty == 0 {
        return CapitalPoint { time, required_capital: 0, unrealized_pnl: 0, margin: 0, open_value: 0 };
    }
    let aq: i128 = if qty < 0 { -qty } else { qty };
    proof {
        assert(0 <= aq * price <= 0x800_0000_0000_0000 * MAX_PRICE as int) by (nonlinear_arith)
            requires
                0 <= aq <= 0x800_0000_0000_0000,
                price <= MAX_PRICE,
        {
        }
        assert(0 <= aq * price * margin_ppm <= 0x800_0000_0000_0000 * MAX_PRICE as int * MARGIN_SCALE) by (nonlinear_arith)
            requires
                0 <= aq * price <= 0x800_0000_0000_0000 * MAX_PRICE as int,
                margin_ppm <= MARGIN_SCALE,
        {
        }
        assert(-(MAX_PRICE as int) * aq <= (price - avg) * aq <= MAX_PRICE as int * aq) by (nonlinear_arith)
            requires
                price <= MAX_PRICE,
                avg <= MAX_PRICE,
                aq >= 0,
        {
        }
        assert(MAX_PRICE as int * aq <= MAX_PRICE as int * 0x800_0000_0000_0000) by (nonlinear_arith)
            requires
                aq <= 0x800_0000_0000_0000,
        {
        }
        assert((price - avg) * qty == (price - avg) * aq || qty < 0);
        assert((avg - price) * aq == -((price - avg) * aq)) by (nonlinear_arith);
        vstd::arithmetic::div_mod::lemma_div_is_ordered_by_denominator(aq * price * margin_ppm, 1, MARGIN_SCALE as int);
        vstd::arithmetic::div_mod::lemma_div_pos_is_pos(aq * price * margin_ppm, MARGIN_SCALE as int);
        vstd::arithmetic::div_mod::lemma_div_is_ordered_by_denominator(aq * price * 2, 1, 100);
        vstd::arithmetic::div_mod::lemma_div_pos_is_pos(aq * price * 2, 100);
        assert(aq * price * margin_ppm / MARGIN_SCALE as int <= aq * price) by {
            assert(aq * price * margin_ppm <= aq * price * MARGIN_SCALE) by (nonlinear_arith)
                requires
                    aq * price >= 0,
                    margin_ppm <= MARGIN_SCALE,
            {
            }
            vstd::arithmetic::div_mod::lemma_div_is_ordered(aq * price * margin_ppm, aq * price * MARGIN_SCALE, MARGIN_SCALE as int);
            vstd::arithmetic::div_mod::lemma_div_multiples_vanish(aq * price, MARGIN_SCALE as int);
            assert(aq * price * MARGIN_SCALE == MARGIN_SCALE * (aq * price)) by (nonlinear_arith);
        }
        assert(aq * price * 2 / 100 <= aq * price) by {
            assert(aq * price * 2 <= aq * price * 100) by (nonlinear_arith)
                requires
                    aq * price >= 0,
            {
            }
            vstd::arithmetic::div_mod::lemma_div_is_ordered(aq * price * 2, aq * price * 100, 100);
            vstd::arithmetic::div_mod::lemma_div_multiples_vanish(aq * price, 100);
            assert(aq * price * 100 == 100 * (aq * price)) by (nonlinear_arith);
        }
    }
    let value: i128 = aq * price as i128;
    let upnl: i128 = if qty > 0 { (price as i128 - avg as i128) * qty } else { (avg as i128 - price as i128) * aq };
    let margin: i128 = value * margin_ppm as i128 / MARGIN_SCALE;
    let loss: i128 = if upnl < 0 { -upnl } else { 0 };
    CapitalPoint { time, required_capital: margin + loss + value * 2 / 100, unrealized_pnl: upnl, margin, open_value: value }
}

/// Trade records of a run with its capital history.
pub struct TradeDashboard {
    pub trade_state: TradeState,
    pub max_order_volume: u64,
    /// Margin requirement in millionths of open value.
    pub margin_rate: u64,
    /// Capital series of the last recalculation.
    pub history: Vec<CapitalPoint>,
    pub position_qty: i128,
    pub position_avg: u64,
}

impl TradeDashboard {
    pub open spec fn history(&self) -> Seq<CapitalPoint> {
        self.history@
    }

    pub fn new(trade_state: TradeState, max_order_volume: u64, margin_rate: u64) -> (r: TradeDashboard)
        ensures
            r.trade_state == trade_state,
            r.max_order_volume == max_order_volume,
            r.margin_rate == margin_rate,
            r.history().len() == 0,
    {
        TradeDashboard { trade_state, max_order_volume, margin_rate, history: Vec::new(), position_qty: 0, position_avg: 0 }
    }

    /// Walks the fills of `symbol` in order, keeping the position (average
    /// price on additions, reset when flat) and, after each fill, its
    /// capital figures marked at the mid price of the first recorded book
    /// not older than the fill (the fill's price when there is none).
    pub fn recalculate_capital_metrics(&mut self, symbol: &String)
        requires
            all_in_bounds(old(self).trade_state.trades()),
            old(self).trade_state.trades().len() <= MAX_LEDGER,
            books_ok(old(self).trade_state.books()),
            old(self).margin_rate <= MARGIN_SCALE,
        ensures
            final(self).history() == walk(filled_of(old(self).trade_state.trades()), old(self).trade_state.books(), symbol@, old(self).margin_rate as int).3,
            final(self).history().len() <= MAX_LEDGER,
            forall|k: int| 0 <= k < final(self).history().len() ==> point_ok(#[trigger] final(self).history()[k]),
            final(self).trade_state == old(self).trade_state,
            final(self).margin_rate == old(self).margin_rate,
            final(self).max_order_volume == old(self).max_order_volume,
    {
        let trades = self.trade_state.get_trades_history();
        let books = self.trade_state.get_orderbooks();
        let ghost fs = trades@;
        let ghost bs = books@;
        let ppm = self.margin_rate;
        proof {
            crate::pnl::calculator::lemma_filled_in_bounds(self.trade_state.trades());
        }
        let mut idx: usize = 0;
        let mut q: i128 = 0;
        let mut a: u64 = 0;
        let mut hist: Vec<CapitalPoint> = Vec::new();
        let mut i: usize = 0;
        while i < trades.len()
            invariant
                i <= fs.len(),
                fs == trades@,
                bs == books@,
                fs.len() <= MAX_LEDGER,
                all_in_bounds(fs),
                books_ok(bs),
                ppm <= MARGIN_SCALE,
                (q as int, a as int, idx as int, hist@) == walk(fs.subrange(0, i as int), bs, symbol@, ppm as int),
                hist@.len() <= i,
                forall|k: int| 0 <= k < hist@.len() ==> point_ok(#[trigger] hist@[k]),
                idx <= bs.len(),
                -(MAX_QUANTITY as int * i) <= q <= MAX_QUANTITY as int * i,
                a <= MAX_PRICE,
            decreases fs.len() - i,
        {
            let ghost pre = fs.subrange(0, i as int);
            proof {
                assert(fs.subrange(0, i + 1).drop_last() =~= pre);
                assert(fs.subrange(0, i + 1).last() == fs[i as int]);
                assert(fs[i as int].in_bounds());
                assert(MAX_QUANTITY as int * (i + 1) == MAX_QUANTITY as int * i + MAX_QUANTITY as int) by (nonlinear_arith);
                assert(MAX_QUANTITY as int * (i + 1) <= MAX_QUANTITY as int * MAX_LEDGER) by (nonlinear_arith)
                    requires
                        i < MAX_LEDGER,
                {
                }
                assert(MAX_QUANTITY as int * MAX_LEDGER == 0x800_0000_0000_0000);
                assert(MAX_QUANTITY as int * i <= 0x800_0000_0000_0000);
            }
            let t = &trades[i];
            if t.symbol == *symbol {
                let ghost idx0 = idx as int;
                while idx < books.len() && books[idx].current_time < t.time
                    invariant
                        idx0 <= idx <= bs.len(),
                        bs == books@,
                        book_at(bs, idx as int, t.time as int) == book_at(bs, idx0, t.time as int),
                    decreases bs.len() - idx,
                {
                    idx = idx + 1;
                }
                let price: u64 = if idx < books.len() {
                    proof {
                        assert(bs[idx as int].in_bounds());
                        if bs[idx as int].bids@.len() > 0 && bs[idx as int].asks@.len() > 0 {
                            assert(bs[idx as int].bids@[0].0 <= MAX_PRICE);
                            assert(bs[idx as int].asks@[0].0 <= MAX_PRICE);
                        }
                    }
                    books[idx].mid_price()
                } else {
                    t.price
                };
                let tq: i128 = match t.side {
                    Side::Buy => t.quantity as i128,
                    Side::Sell => -(t.quantity as i128),
                };
                let aq0: i128 = if q < 0 { -q } else { q };
                let atq: i128 = t.quantity as i128;
                let avg: u64 = if q == 0 {
                    t.price
                } else if (q > 0 && tq > 0) || (q < 0 && tq < 0) {
                    proof {
                        assert(aq0 * a <= aq0 * MAX_PRICE as int) by (nonlinear_arith)
                            requires
                                a <= MAX_PRICE,
                                aq0 >= 0,
                        {
                        }
                        assert(atq * t.price <= atq * MAX_PRICE as int) by (nonlinear_arith)
                            requires
                                t.price <= MAX_PRICE,
                                atq >= 0,
                        {
                        }
                        assert(aq0 * MAX_PRICE as int <= MAX_QUANTITY as int * MAX_LEDGER * MAX_PRICE as int) by (nonlinear_arith)
                            requires
                                aq0 <= MAX_QUANTITY as int * MAX_LEDGER,
                        {
                        }
                        let num = aq0 * a + atq * t.price;
                        let den = aq0 + atq;
                        assert(num <= MAX_PRICE as int * den) by (nonlinear_arith)
                            requires
                                num == aq0 * a + atq * t.price,
                                den == aq0 + atq,
                                aq0 * a <= aq0 * MAX_PRICE as int,
                                atq * t.price <= atq * MAX_PRICE as int,
                        {
                        }
                        assert(num >= 0) by (nonlinear_arith)
                            requires
                                num == aq0 * a + atq * t.price,
                                aq0 >= 0,
                                atq >= 0,
                        {
                        }
                        vstd::arithmetic::div_mod::lemma_div_is_ordered(num, MAX_PRICE as int * den, den);
                        vstd::arithmetic::div_mod::lemma_div_multiples_vanish(MAX_PRICE as int, den);
                        assert(MAX_PRICE as int * den == den * MAX_PRICE as int) by (nonlinear_arith);
                        vstd::arithmetic::div_mod::lemma_div_pos_is_pos(num, den);
                    }
                    ((aq0 * a as i128 + atq * t.price as i128) / (aq0 + atq)) as u64
                } else {
                    a
                };
                let nq = q + tq;
                if nq == 0 {
                    q = 0;
                    a = 0;
                } else {
                    q = nq;
                    a = avg;
                }
                proof {
                    assert(-(MAX_QUANTITY as int * (i + 1)) <= q <= MAX_QUANTITY as int * (i + 1));
                }
                let pt = capital_point(q, a, price, ppm, t.time);
                hist.push(pt);
            } else {
                proof {
                    assert(-(MAX_QUANTITY as int * (i + 1)) <= q <= MAX_QUANTITY as int * (i + 1));
                }
            }
            i = i + 1;
        }
        proof {
            assert(fs.subrange(0, i as int) =~= fs);
        }
        self.history = hist;
        self.position_qty = q;
        self.position_avg = a;
    }

    /// Recalculates for `symbol` and summarizes the series (see `summary_of`).
    pub fn get_capital_metrics(&mut self, symbol: &String) -> (r: CapitalMetrics)
        requires
            all_in_bounds(old(self).trade_state.trades()),
            old(self).trade_state.trades().len() <= MAX_LEDGER,
            books_ok(old(self).trade_state.books()),
            old(self).margin_rate <= MARGIN_SCALE,
        ensures
            r == summary_of(walk(filled_of(old(self).trade_state.trades()), old(self).trade_state.books(), symbol@, old(self).margin_rate as int).3),
            final(self).trade_state == old(self).trade_state,
    {
        self.recalculate_capital_metrics(symbol);
        let n = self.history.len();
        if n == 0 {
            return CapitalMetrics {
                max_required_capital: 0,
                max_drawdown: 0,
                max_open_positions_value: 0,
                average_capital_utilization: 0,
                peak_margin_requirement: 0,
                max_unrealized_loss: 0,
            };
        }
        let ghost h = self.history@;
        let mut mc: i128 = 0;
        let mut mv: i128 = 0;
        let mut mm: i128 = 0;
        let mut mp: i128 = 0;
        let mut sc: i128 = 0;
        let mut k: usize = 0;
        while k < n
            invariant
                k <= n,
                n == h.len(),
                h == self.history@,
                n <= MAX_LEDGER,
                forall|j: int| 0 <= j < h.len() ==> point_ok(#[trigger] h[j]),
                mc == max_capital(h.subrange(0, k as int)),
                mv == max_value(h.subrange(0, k as int)),
                mm == max_margin(h.subrange(0, k as int)),
                mp == min_pnl(h.subrange(0, k as int)),
                sc == sum_capital(h.subrange(0, k as int)),
                0 <= mc <= 0x1000_0000_0000_0000_0000_0000,
                0 <= mv <= 0x1000_0000_0000_0000_0000_0000,
                0 <= mm <= 0x1000_0000_0000_0000_0000_0000,
                -0x1000_0000_0000_0000_0000_0000 <= mp <= 0,
                0 <= sc <= 0x1000_0000_0000_0000_0000_0000 * k,
            decreases n - k,
        {
            let p = self.history[k];
            proof {
                assert(h.subrange(0, k + 1).drop_last() =~= h.subrange(0, k as int));
                assert(h.subrange(0, k + 1).last() == h[k as int]);
                assert(point_ok(h[k as int]));
                assert(0x1000_0000_0000_0000_0000_0000 * (k + 1) == 0x1000_0000_0000_0000_0000_0000 * k + 0x1000_0000_0000_0000_0000_0000) by (nonlinear_arith);
                assert(0x1000_0000_0000_0000_0000_0000 * (k + 1) <= 0x1000_0000_0000_0000_0000_0000 * MAX_LEDGER) by (nonlinear_arith)
                    requires
                        k < MAX_LEDGER,
                {
                }
            }
            if p.required_capital > mc {
                mc = p.required_capital;
            }
            if p.open_value > mv {
                mv = p.open_value;
            }
            if p.margin > mm {
                mm = p.margin;
            }
            if p.unrealized_pnl < mp {
                mp = p.unrealized_pnl;
            }
            sc = sc + p.required_capital;
            k = k + 1;
        }
        proof {
            assert(h.subrange(0, k as int) =~= h);
            vstd::arithmetic::div_mod::lemma_div_is_ordered_by_denominator(sc as int, 1, n as int);
            vstd::arithmetic::div_mod::lemma_div_pos_is_pos(sc as int, n as int);
        }
        CapitalMetrics {
            max_required_capital: mc,
            max_drawdown: -mp,
            max_open_positions_value: mv,
            average_capital_utilization: sc / n as i128,
            peak_margin_requirement: mm,
            max_unrealized_loss: -mp,
        }
    }
}

impl TradeDashboard {
    /// Counts of proposals: all, filled, not filled, and filled buys and
    /// sells.
    pub fn calculate_trading_costs(&self) -> (r: TradingCosts)
        requires
            self.trade_state.trades().len() <= MAX_LEDGER,
        ensures
            r.successful_trades == filled_of(self.trade_state.trades()).len(),
            r.failed_trades == crate::ledger::unfilled_of(self.trade_state.trades()).len(),
            r.total_attempted_trades == r.successful_trades + r.failed_trades,
            r.buy_trades == side_count(filled_of(self.trade_state.trades()), Side::Buy),
            r.sell_trades == side_count(filled_of(self.trade_state.trades()), Side::Sell),
    {
        let trades = self.trade_state.get_trades_history();
        let failed = self.trade_state.get_failed_trades();
        proof {
            crate::pnl::calculator::lemma_filled_in_bounds_len(self.trade_state.trades());
            crate::ledger::lemma_unfilled_len(self.trade_state.trades());
        }
        let ghost fs = trades@;
        let mut buys: u64 = 0;
        let mut sells: u64 = 0;
        let mut i: usize = 0;
        while i < trades.len()
            invariant
                i <= fs.len(),
                fs == trades@,
                fs.len() <= MAX_LEDGER,
                buys == side_count(fs.subrange(0, i as int), Side::Buy),
                sells == side_count(fs.subrange(0, i as int), Side::Sell),
                buys <= i && sells <= i,
            decreases fs.len() - i,
        {
            proof {
                assert(fs.subrange(0, i + 1).drop_last() =~= fs.subrange(0, i as int));
                assert(fs.subrange(0, i + 1).last() == fs[i as int]);
            }
            match trades[i].side {
                Side::Buy => buys = buys + 1,
                Side::Sell => sells = sells + 1,
            }
            i = i + 1;
        }
        proof {
            assert(fs.subrange(0, i as int) =~= fs);
        }
        TradingCosts {
            total_attempted_trades: (trades.len() + failed.len()) as u64,
            successful_trades: trades.len() as u64,
            failed_trades: failed.len() as u64,
            buy_trades: buys,
            sell_trades: sells,
        }
    }
}

/// Sells `rem` at `price` against long lots (quantity, price), oldest
/// first; lots with nothing left are passed over, a lot emptied is removed,
/// and the last one touched is split. Gives the lots left and the matches.
pub open spec fn long_close(lots: Seq<(u64, u64)>, price: u64, rem: int) -> (Seq<(u64, u64)>, Seq<ClosedTrade>)
    decreases lots.len(),
{
    if rem <= 0 || lots.len() == 0 {
        (lots, seq![])
    } else if lots[0].0 > 0 {
        let m = if rem <= lots[0].0 { rem } else { lots[0].0 as int };
        let ct = ClosedTrade {
            open_side: Side::Buy,
            quantity: m as u64,
            open_price: lots[0].1,
            close_side: Side::Sell,
            close_price: price,
            pnl: ((price - lots[0].1) * m) as i128,
        };
        if lots[0].0 == m {
            let r = long_close(lots.drop_first(), price, rem - m);
            (r.0, seq![ct] + r.1)
        } else {
            (seq![((lots[0].0 - m) as u64, lots[0].1)] + lots.drop_first(), seq![ct])
        }
    } else {
        let r = long_close(lots.drop_first(), price, rem);
        (seq![lots[0]] + r.0, r.1)
    }
}

/// Long lots and matches after the fills of `sym`: a buy opens a lot, a
/// sell closes lots (see `long_close`); other symbols pass.
pub open spec fn long_walk(trades: Seq<Trade>, sym: Seq<char>) -> (Seq<(u64, u64)>, Seq<ClosedTrade>)
    decreases trades.len(),
{
    if trades.len() == 0 {
        (seq![], seq![])
    } else {
        let prev = long_walk(trades.drop_last(), sym);
        let t = trades.last();
        if t.symbol@ != sym {
            prev
        } else if t.side == Side::Buy {
            (prev.0.push((t.quantity, t.price)), prev.1)
        } else {
            let r = long_close(prev.0, t.price, t.quantity as int);
            (r.0, prev.1 + r.1)
        }
    }
}

/// Value of long lots marked at `mark`.
pub open spec fn long_value(lots: Seq<(u64, u64)>, mark: int) -> int
    decreases lots.len(),
{
    if lots.len() == 0 {
        0
    } else {
        long_value(lots.drop_last(), mark) + if lots.last().0 > 0 { (mark - lots.last().1) * lots.last().0 } else { 0 }
    }
}

/// Open quantity of long lots.
pub open spec fn long_qty(lots: Seq<(u64, u64)>) -> int
    decreases lots.len(),
{
    if lots.len() == 0 { 0 } else { long_qty(lots.drop_last()) + lots.last().0 }
}

/// Lots in bounds.
pub open spec fn long_ok(lots: Seq<(u64, u64)>) -> bool {
    forall|i: int| 0 <= i < lots.len() ==> (#[trigger] lots[i]).0 <= MAX_QUANTITY && lots[i].1 <= MAX_PRICE
}

pub proof fn lemma_long_close(lots: Seq<(u64, u64)>, price: u64, rem: int)
    requires
        long_ok(lots),
        price <= MAX_PRICE,
    ensures
        long_ok(long_close(lots, price, rem).0),
        closed_ok(long_close(lots, price, rem).1),
        long_close(lots, price, rem).0.len() <= lots.len(),
    decreases lots.len(),
{
    if rem <= 0 || lots.len() == 0 {
    } else {
        let rest = lots.drop_first();
        assert(long_ok(rest)) by {
            assert forall|i: int| 0 <= i < rest.len() implies (#[trigger] rest[i]).0 <= MAX_QUANTITY && rest[i].1 <= MAX_PRICE by {
                assert(rest[i] == lots[i + 1]);
            }
        }
        if lots[0].0 > 0 {
            let m = if rem <= lots[0].0 { rem } else { lots[0].0 as int };
            assert(-pnl_bound() <= (price - lots[0].1) * m <= pnl_bound()) by (nonlinear_arith)
                requires
                    price <= MAX_PRICE,
                    lots[0].1 <= MAX_PRICE,
                    0 < m <= MAX_QUANTITY,
                    pnl_bound() == 4611686018427387904,
            {
            }
            let ct = ClosedTrade {
                open_side: Side::Buy,
                quantity: m as u64,
                open_price: lots[0].1,
                close_side: Side::Sell,
                close_price: price,
                pnl: ((price - lots[0].1) * m) as i128,
            };
            if lots[0].0 == m {
                lemma_long_close(rest, price, rem - m);
                let r = long_close(rest, price, rem - m);
                assert forall|i: int| 0 <= i < (seq![ct] + r.1).len() implies -pnl_bound() <= (#[trigger] (seq![ct] + r.1)[i]).pnl <= pnl_bound() by {
                    if i > 0 {
                        assert((seq![ct] + r.1)[i] == r.1[i - 1]);
                    }
                }
            } else {
                let l = ((lots[0].0 - m) as u64, lots[0].1);
                assert forall|i: int| 0 <= i < (seq![l] + rest).len() implies (#[trigger] (seq![l] + rest)[i]).0 <= MAX_QUANTITY
                    && (seq![l] + rest)[i].1 <= MAX_PRICE by {
                    if i > 0 {
                        assert((seq![l] + rest)[i] == rest[i - 1]);
                    }
                }
                assert(seq![ct][0] == ct);
            }
        } else {
            lemma_long_close(rest, price, rem);
            let r = long_close(rest, price, rem);
            assert forall|i: int| 0 <= i < (seq![lots[0]] + r.0).len() implies (#[trigger] (seq![lots[0]] + r.0)[i]).0 <= MAX_QUANTITY
                && (seq![lots[0]] + r.0)[i].1 <= MAX_PRICE by {
                if i > 0 {
                    assert((seq![lots[0]] + r.0)[i] == r.0[i - 1]);
                }
            }
        }
    }
}

/// Sells `quantity` at `price` against long lots (see `long_close`),
/// appending the matches to `closed`.
fn close_long(lots: &mut Vec<(u64, u64)>, price: u64, quantity: u64, closed: &mut Vec<ClosedTrade>)
    requires
        long_ok(old(lots)@),
        price <= MAX_PRICE,
    ensures
        final(lots)@ == long_close(old(lots)@, price, quantity as int).0,
        final(closed)@ == old(closed)@ + long_close(old(lots)@, price, quantity as int).1,
{
    let ghost target = long_close(lots@, price, quantity as int);
    let ghost c0 = closed@;
    let mut kept: Vec<(u64, u64)> = Vec::new();
    let mut rem: u64 = quantity;
    let mut i: usize = 0;
    let ghost ls = lots@;
    proof {
        assert(ls.subrange(0, ls.len() as int) =~= ls);
        assert(c0 + Seq::<ClosedTrade>::empty() =~= c0);
    }
    while i < lots.len()
        invariant
            i <= ls.len(),
            ls == lots@,
            long_ok(ls),
            price <= MAX_PRICE,
            kept@ + long_close(ls.subrange(i as int, ls.len() as int), price, rem as int).0 == target.0,
            closed@ + long_close(ls.subrange(i as int, ls.len() as int), price, rem as int).1 == c0 + target.1,
        decreases ls.len() - i,
    {
        let ghost suf = ls.subrange(i as int, ls.len() as int);
        let ghost rest = ls.subrange(i + 1, ls.len() as int);
        let l = lots[i];
        proof {
            assert(suf[0] == l);
            assert(suf.drop_first() =~= rest);
        }
        if rem > 0 && l.0 > 0 {
            let m = if rem <= l.0 { rem } else { l.0 };
            proof {
                assert(-pnl_bound() <= (price - l.1) * m <= pnl_bound()) by (nonlinear_arith)
                    requires
                        price <= MAX_PRICE,
                        l.1 <= MAX_PRICE,
                        m <= MAX_QUANTITY,
                        pnl_bound() == 4611686018427387904,
                {
                }
            }
            let ct = ClosedTrade {
                open_side: Side::Buy,
                quantity: m,
                open_price: l.1,
                close_side: Side::Sell,
                close_price: price,
                pnl: (price as i128 - l.1 as i128) * m as i128,
            };
            closed.push(ct);
            if l.0 == m {
                rem = rem - m;
                proof {
                    let r = long_close(rest, price, rem as int);
                    assert(closed@ + r.1 =~= closed@.drop_last() + (seq![ct] + r.1));
                }
            } else {
                let left = (l.0 - m, l.1);
                kept.push(left);
                proof {
                    assert(long_close(rest, price, 0) == (rest, Seq::<ClosedTrade>::empty()));
                    assert(kept@ + rest =~= kept@.drop_last() + (seq![left] + rest));
                    assert(closed@ + Seq::<ClosedTrade>::empty() =~= closed@.drop_last() + seq![ct]);
                }
                rem = 0;
            }
        } else {
            kept.push(l);
            proof {
                if rem == 0 {
                    assert(long_close(suf, price, 0) == (suf, Seq::<ClosedTrade>::empty()));
                    assert(long_close(rest, price, 0) == (rest, Seq::<ClosedTrade>::empty()));
                    assert(suf =~= seq![l] + rest);
                }
                let r = long_close(rest, price, rem as int);
                assert(kept@ + r.0 =~= kept@.drop_last() + (seq![l] + r.0));
            }
        }
        i = i + 1;
    }
    proof {
        assert(ls.subrange(i as int, ls.len() as int) =~= Seq::<(u64, u64)>::empty());
        assert(kept@ + Seq::<(u64, u64)>::empty() =~= kept@);
        assert(closed@ + Seq::<ClosedTrade>::empty() =~= closed@);
        assert(c0 + target.1 == old(closed)@ + target.1);
    }
    *lots = kept;
}

impl TradeDashboard {
    /// Pnl of the fills of `symbol` counting long inventory only: buys open
    /// lots, sells close them oldest first (a sell beyond the lots closes
    /// nothing more); open lots are marked at the price of the last fill in
    /// the ledger, of any symbol.
    pub fn pnl(&mut self, symbol: &String) -> (r: PnLResult)
        requires
            all_in_bounds(old(self).trade_state.trades()),
            old(self).trade_state.trades().len() <= MAX_LEDGER,
        ensures
            r.closed_trades@ == long_walk(filled_of(old(self).trade_state.trades()), symbol@).1,
            r.total_pnl == sum_pnl(long_walk(filled_of(old(self).trade_state.trades()), symbol@).1),
            r.unrealized_pnl == long_value(
                long_walk(filled_of(old(self).trade_state.trades()), symbol@).0,
                if filled_of(old(self).trade_state.trades()).len() > 0 {
                    filled_of(old(self).trade_state.trades()).last().price as int
                } else {
                    0
                },
            ),
            r.total_fees == 0,
            r.remaining_shares == long_qty(long_walk(filled_of(old(self).trade_state.trades()), symbol@).0),
            *final(self) == *old(self),
    {
        let trades = self.trade_state.get_trades_history();
        let ghost fs = trades@;
        proof {
            crate::pnl::calculator::lemma_filled_in_bounds(self.trade_state.trades());
        }
        let mut lots: Vec<(u64, u64)> = Vec::new();
        let mut closed: Vec<ClosedTrade> = Vec::new();
        let mut i: usize = 0;
        while i < trades.len()
            invariant
                i <= fs.len(),
                fs == trades@,
                fs.len() <= MAX_LEDGER,
                all_in_bounds(fs),
                (lots@, closed@) == long_walk(fs.subrange(0, i as int), symbol@),
                long_ok(lots@),
                closed_ok(closed@),
                lots@.len() <= i,
            decreases fs.len() - i,
        {
            proof {
                assert(fs.subrange(0, i + 1).drop_last() =~= fs.subrange(0, i as int));
                assert(fs.subrange(0, i + 1).last() == fs[i as int]);
                assert(fs[i as int].in_bounds());
            }
            let t = &trades[i];
            if t.symbol == *symbol {
                match t.side {
                    Side::Buy => {
                        lots.push((t.quantity, t.price));
                        proof {
                            assert forall|k: int| 0 <= k < lots@.len() implies (#[trigger] lots@[k]).0 <= MAX_QUANTITY && lots@[k].1 <= MAX_PRICE by {}
                        }
                    },
                    Side::Sell => {
                        let ghost before = closed@;
                        proof {
                            lemma_long_close(lots@, t.price, t.quantity as int);
                        }
                        close_long(&mut lots, t.price, t.quantity, &mut closed);
                        proof {
                            let add = closed@.subrange(before.len() as int, closed@.len() as int);
                            assert forall|k: int| 0 <= k < closed@.len() implies -pnl_bound() <= (#[trigger] closed@[k]).pnl <= pnl_bound() by {
                                if k >= before.len() {
                                    assert(closed@[k] == long_close(long_walk(fs.subrange(0, i as int), symbol@).0, t.price, t.quantity as int).1[k - before.len()]);
                                } else {
                                    assert(closed@[k] == before[k]);
                                }
                            }
                        }
                    },
                }
            }
            i = i + 1;
        }
        proof {
            assert(fs.subrange(0, i as int) =~= fs);
        }
        let total_pnl = sum_closed(&closed);
        let last: u64 = if trades.len() > 0 { trades[trades.len() - 1].price } else { 0 };
        proof {
            if fs.len() > 0 {
                assert(fs.last() == fs[fs.len() - 1]);
                assert(fs[fs.len() - 1].in_bounds());
            }
        }
        let ghost ls = lots@;
        let mut u: i128 = 0;
        let mut q: i128 = 0;
        let mut k: usize = 0;
        while k < lots.len()
            invariant
                k <= ls.len(),
                q == long_qty(ls.subrange(0, k as int)),
                0 <= q <= MAX_QUANTITY as int * k,
                ls == lots@,
                ls.len() <= MAX_LEDGER,
                long_ok(ls),
                last <= MAX_PRICE,
                u == long_value(ls.subrange(0, k as int), last as int),
                -pnl_bound() * k <= u <= pnl_bound() * k,
                pnl_bound() == 4611686018427387904,
            decreases ls.len() - k,
        {
            let l = lots[k];
            proof {
                assert(ls.subrange(0, k + 1).drop_last() =~= ls.subrange(0, k as int));
                assert(ls.subrange(0, k + 1).last() == l);
                assert(-pnl_bound() <= (last - l.1) * l.0 <= pnl_bound()) by (nonlinear_arith)
                    requires
                        last <= MAX_PRICE,
                        l.1 <= MAX_PRICE,
                        l.0 <= MAX_QUANTITY,
                        pnl_bound() == 4611686018427387904,
                {
                }
                assert(pnl_bound() * (k + 1) == pnl_bound() * k + pnl_bound()) by (nonlinear_arith);
                assert(pnl_bound() * (k + 1) <= pnl_bound() * MAX_LEDGER) by (nonlinear_arith)
                    requires
                        k < MAX_LEDGER,
                {
                }
            }
            if l.0 > 0 {
                u = u + (last as i128 - l.1 as i128) * l.0 as i128;
            }
            proof {
                assert(MAX_QUANTITY as int * (k + 1) == MAX_QUANTITY as int * k + MAX_QUANTITY as int) by (nonlinear_arith);
                assert(MAX_QUANTITY as int * k <= MAX_QUANTITY as int * MAX_LEDGER) by (nonlinear_arith)
                    requires
                        k < MAX_LEDGER,
                {
                }
            }
            q = q + l.0 as i128;
            k = k + 1;
        }
        proof {
            assert(ls.subrange(0, k as int) =~= ls);
        }
        PnLResult { total_pnl, unrealized_pnl: u, closed_trades: closed, total_fees: 0, remaining_shares: q }
    }
}

} // verus!
