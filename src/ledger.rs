//! The ledger of a run: every proposal and the books that prompted them.
use vstd::prelude::*;
use crate::models::{Side, Trade, TradeStatus, MAX_QUANTITY, all_in_bounds, signed_qty};
use crate::order_book::OrderBook;
use crate::pnl::calculator::{filled_of, filled_trades};

verus! {

/// Relies on chrono's `Utc::now` and `DateTime::timestamp_millis`: the
/// current time in milliseconds since the Unix epoch. Nothing is assumed of
/// its value.
#[verifier::external_body]
fn now_millis() -> (r: i64) {
    chrono::Utc::now().timestamp_millis()
}

/// Index of the first trade with id `id`, or -1.
pub open spec fn id_index(trades: Seq<Trade>, id: Seq<char>) -> int
    decreases trades.len(),
{
    if trades.len() == 0 {
        -1
    } else {
        let k = id_index(trades.drop_last(), id);
        if k >= 0 {
            k
        } else if trades.last().id@ == id {
            trades.len() - 1
        } else {
            -1
        }
    }
}

/// The trades after the first one with id `id` takes status `st`; unchanged
/// if there is none.
pub open spec fn status_set(trades: Seq<Trade>, id: Seq<char>, st: TradeStatus) -> Seq<Trade> {
    let k = id_index(trades, id);
    if k >= 0 {
        trades.update(k, Trade { status: st, ..trades[k] })
    } else {
        trades
    }
}

/// The trades that are not filled, in order.
pub open spec fn unfilled_of(trades: Seq<Trade>) -> Seq<Trade>
    decreases trades.len(),
{
    if trades.len() == 0 {
        seq![]
    } else if trades.last().status != TradeStatus::Filled {
        unfilled_of(trades.drop_last()).push(trades.last())
    } else {
        unfilled_of(trades.drop_last())
    }
}

pub proof fn lemma_unfilled_len(trades: Seq<Trade>)
    ensures
        unfilled_of(trades).len() + crate::pnl::calculator::filled_of(trades).len() == trades.len(),
    decreases trades.len(),
{
    if trades.len() > 0 {
        lemma_unfilled_len(trades.drop_last());
    }
}

/// Net filled position in `sym`: filled buys minus filled sells.
pub open spec fn net_position(trades: Seq<Trade>, sym: Seq<char>) -> int
    decreases trades.len(),
{
    if trades.len() == 0 {
        0
    } else {
        let t = trades.last();
        net_position(trades.drop_last(), sym) + if t.symbol@ == sym && t.status == TradeStatus::Filled {
            signed_qty(t.side, t.quantity as int)
        } else {
            0
        }
    }
}

/// Time of the most recent filled trade in `sym`, or zero.
pub open spec fn last_fill_time(trades: Seq<Trade>, sym: Seq<char>) -> int
    decreases trades.len(),
{
    if trades.len() == 0 {
        0
    } else if trades.last().symbol@ == sym && trades.last().status == TradeStatus::Filled {
        trades.last().time as int
    } else {
        last_fill_time(trades.drop_last(), sym)
    }
}

/// Number of filled trades in `sym` at most `window` old at `now`.
pub open spec fn recent_fill_count(trades: Seq<Trade>, sym: Seq<char>, window: int, now: int) -> int
    decreases trades.len(),
{
    if trades.len() == 0 {
        0
    } else {
        let t = trades.last();
        recent_fill_count(trades.drop_last(), sym, window, now) + if t.symbol@ == sym && t.status
            == TradeStatus::Filled && now - t.time <= window {
            1int
        } else {
            0
        }
    }
}

/// The ledger: trades are only appended, and afterwards only their status
/// changes.
pub struct TradeState {
    all_trades: Vec<Trade>,
    orderbooks: Vec<OrderBook>,
}

impl TradeState {
    /// Every trade recorded, in order.
    pub closed spec fn trades(&self) -> Seq<Trade> {
        self.all_trades@
    }

    /// Every book recorded, in order.
    pub closed spec fn books(&self) -> Seq<OrderBook> {
        self.orderbooks@
    }

    pub fn new() -> (r: TradeState)
        ensures
            r.trades().len() == 0,
            r.books().len() == 0,
    {
        TradeState { all_trades: Vec::new(), orderbooks: Vec::new() }
    }

    pub fn add(&mut self, trade: Trade)
        ensures
            final(self).trades() == old(self).trades().push(trade),
            final(self).books() == old(self).books(),
    {
        self.all_trades.push(trade);
    }

    /// The filled trades.
    pub fn get_trades_history(&self) -> (r: Vec<Trade>)
        ensures
            r@ == filled_of(self.trades()),
    {
        filled_trades(self.all_trades.as_slice())
    }

    pub fn get_all_trades(&self) -> (r: &Vec<Trade>)
        ensures
            r@ == self.trades(),
    {
        &self.all_trades
    }

    /// Sets the status of the first trade with id `trade_id`; false, and no
    /// change, when there is none.
    pub fn change_status(&mut self, trade_id: &String, new_status: TradeStatus) -> (r: bool)
        ensures
            r == (id_index(old(self).trades(), trade_id@) >= 0),
            final(self).trades() == status_set(old(self).trades(), trade_id@, new_status),
            final(self).books() == old(self).books(),
    {
        let ghost ts = self.all_trades@;
        let ghost bs = self.orderbooks@;
        let mut i: usize = 0;
        proof {
            assert(ts.subrange(0, 0).len() == 0);
        }
        while i < self.all_trades.len()
            invariant
                i <= ts.len(),
                self.all_trades@ == ts,
                self.orderbooks@ == bs,
                ts == old(self).all_trades@,
                bs == old(self).orderbooks@,
                id_index(ts.subrange(0, i as int), trade_id@) == -1,
            decreases ts.len() - i,
        {
            proof {
                assert(ts.subrange(0, i + 1).drop_last() =~= ts.subrange(0, i as int));
                assert(ts.subrange(0, i + 1).last() == ts[i as int]);
            }
            if self.all_trades[i].id == *trade_id {
                proof {
                    lemma_id_index_prefix(ts, i as int + 1, trade_id@);
                }
                let mut t = self.all_trades.remove(i);
                t.status = new_status;
                self.all_trades.insert(i, t);
                proof {
                    assert(id_index(ts, trade_id@) == i);
                    assert(self.all_trades@ =~= status_set(ts, trade_id@, new_status));
                }
                return true;
            }
            i = i + 1;
        }
        proof {
            assert(ts.subrange(0, i as int) =~= ts);
        }
        false
    }

    /// Net filled position in `symbol`.
    pub fn get_position(&self, symbol: &String) -> (r: i128)
        requires
            all_in_bounds(self.trades()),
        ensures
            r == net_position(self.trades(), symbol@),
    {
        let ghost ts = self.all_trades@;
        let mut pos: i128 = 0;
        let mut i: usize = 0;
        while i < self.all_trades.len()
            invariant
                i <= ts.len(),
                self.all_trades@ == ts,
                all_in_bounds(ts),
                pos == net_position(ts.subrange(0, i as int), symbol@),
                -(MAX_QUANTITY as int) * i <= pos <= MAX_QUANTITY as int * i,
            decreases ts.len() - i,
        {
            proof {
                assert(ts.subrange(0, i + 1).drop_last() =~= ts.subrange(0, i as int));
                assert(ts.subrange(0, i + 1).last() == ts[i as int]);
                assert(ts[i as int].in_bounds());
                assert(i < 0x1_0000_0000_0000_0000);
                assert(MAX_QUANTITY as int * (i + 1) == MAX_QUANTITY as int * i + MAX_QUANTITY as int) by (nonlinear_arith);
                assert(MAX_QUANTITY as int * i <= MAX_QUANTITY as int * 0x1_0000_0000_0000_0000) by (nonlinear_arith)
                    requires
                        i < 0x1_0000_0000_0000_0000,
                {
                }
                assert(MAX_QUANTITY as int * 0x1_0000_0000_0000_0000 == 0x8000_0000_0000_0000_0000_0000);
                assert(-(MAX_QUANTITY as int) * i >= -0x8000_0000_0000_0000_0000_0000) by (nonlinear_arith)
                    requires
                        MAX_QUANTITY as int * i <= 0x8000_0000_0000_0000_0000_0000,
                {
                }
            }
            let t = &self.all_trades[i];
            if t.symbol == *symbol && t.status == TradeStatus::Filled {
                match t.side {
                    Side::Buy => pos = pos + t.quantity as i128,
                    Side::Sell => pos = pos - t.quantity as i128,
                }
            }
            proof {
                assert(-(MAX_QUANTITY as int) * (i + 1) <= pos <= MAX_QUANTITY as int * (i + 1)) by (nonlinear_arith)
                    requires
                        -(MAX_QUANTITY as int) * i - MAX_QUANTITY as int <= pos <= MAX_QUANTITY as int * i + MAX_QUANTITY as int,
                {
                }
            }
            i = i + 1;
        }
        proof {
            assert(ts.subrange(0, i as int) =~= ts);
        }
        pos
    }

    /// Milliseconds from the most recent fill in `symbol` to `now`; zero
    /// when that fill's time is not positive.
    pub fn position_age_at(&self, symbol: &String, now: i64) -> (r: i128)
        ensures
            r == if last_fill_time(self.trades(), symbol@) > 0 {
                now - last_fill_time(self.trades(), symbol@)
            } else {
                0
            },
    {
        let ghost ts = self.all_trades@;
        let mut i: usize = self.all_trades.len();
        proof {
            assert(ts.subrange(0, i as int) =~= ts);
        }
        while i > 0
            invariant
                i <= ts.len(),
                self.all_trades@ == ts,
                last_fill_time(ts, symbol@) == last_fill_time(ts.subrange(0, i as int), symbol@),
            decreases i,
        {
            let t = &self.all_trades[i - 1];
            proof {
                assert(ts.subrange(0, i as int).drop_last() =~= ts.subrange(0, i - 1));
                assert(ts.subrange(0, i as int).last() == ts[i - 1]);
            }
            if t.symbol == *symbol && t.status == TradeStatus::Filled {
                if t.time > 0 {
                    return now as i128 - t.time as i128;
                } else {
                    return 0;
                }
            }
            i = i - 1;
        }
        0
    }

    /// Milliseconds since the most recent fill in `symbol`, by the clock.
    pub fn get_position_age(&self, symbol: &String) -> (r: i128)
        ensures
            last_fill_time(self.trades(), symbol@) <= 0 ==> r == 0,
    {
        let now = now_millis();
        self.position_age_at(symbol, now)
    }

    /// One "filled" per fill in `symbol` at most `window_ms` old at `now`,
    /// newest first.
    pub fn recent_fills_at(&self, symbol: &String, window_ms: i64, now: i64) -> (r: Vec<String>)
        ensures
            r@.len() == recent_fill_count(self.trades(), symbol@, window_ms as int, now as int),
            forall|k: int| 0 <= k < r@.len() ==> (#[trigger] r@[k])@ == "filled"@,
    {
        let ghost ts = self.all_trades@;
        let mut out: Vec<String> = Vec::new();
        let mut i: usize = self.all_trades.len();
        proof {
            assert(ts.subrange(0, i as int) =~= ts);
        }
        while i > 0
            invariant
                i <= ts.len(),
                self.all_trades@ == ts,
                out@.len() + recent_fill_count(ts.subrange(0, i as int), symbol@, window_ms as int, now as int)
                    == recent_fill_count(ts, symbol@, window_ms as int, now as int),
                forall|k: int| 0 <= k < out@.len() ==> (#[trigger] out@[k])@ == "filled"@,
            decreases i,
        {
            let t = &self.all_trades[i - 1];
            proof {
                assert(ts.subrange(0, i as int).drop_last() =~= ts.subrange(0, i - 1));
                assert(ts.subrange(0, i as int).last() == ts[i - 1]);
            }
            if t.symbol == *symbol && t.status == TradeStatus::Filled && (now as i128) - (t.time as i128) <= window_ms as i128 {
                out.push(String::from_str("filled"));
            }
            i = i - 1;
        }
        proof {
            assert(ts.subrange(0, 0) =~= Seq::<Trade>::empty());
        }
        out
    }

    /// One "filled" per fill in `symbol` at most `window_ms` old, by the clock.
    pub fn get_recent_fills(&self, symbol: &String, window_ms: i64) -> (r: Vec<String>)
        ensures
            forall|k: int| 0 <= k < r@.len() ==> (#[trigger] r@[k])@ == "filled"@,
    {
        let now = now_millis();
        self.recent_fills_at(symbol, window_ms, now)
    }

    pub fn add_orderbook(&mut self, orderbook: OrderBook)
        ensures
            final(self).books() == old(self).books().push(orderbook),
            final(self).trades() == old(self).trades(),
    {
        self.orderbooks.push(orderbook);
    }

    pub fn get_orderbooks(&self) -> (r: &Vec<OrderBook>)
        ensures
            r@ == self.books(),
    {
        &self.orderbooks
    }

    /// Every trade that is not filled: pending, rejected or unfilled.
    pub fn get_failed_trades(&self) -> (r: Vec<Trade>)
        ensures
            r@ == unfilled_of(self.trades()),
    {
        let ghost ts = self.all_trades@;
        let mut r: Vec<Trade> = Vec::new();
        let mut i: usize = 0;
        while i < self.all_trades.len()
            invariant
                i <= ts.len(),
                self.all_trades@ == ts,
                r@ == unfilled_of(ts.subrange(0, i as int)),
            decreases ts.len() - i,
        {
            proof {
                assert(ts.subrange(0, i + 1).drop_last() =~= ts.subrange(0, i as int));
                assert(ts.subrange(0, i + 1).last() == ts[i as int]);
            }
            if self.all_trades[i].status != TradeStatus::Filled {
                r.push(self.all_trades[i].duplicate());
            }
            i = i + 1;
        }
        proof {
            assert(ts.subrange(0, i as int) =~= ts);
        }
        r
    }
}

/// The first match in a prefix is the first match overall.
pub proof fn lemma_id_index_prefix(ts: Seq<Trade>, k: int, id: Seq<char>)
    requires
        0 < k <= ts.len(),
        id_index(ts.subrange(0, k - 1), id) == -1,
        ts[k - 1].id@ == id,
    ensures
        id_index(ts, id) == k - 1,
    decreases ts.len(),
{
    let p = ts.subrange(0, k);
    assert(p.drop_last() =~= ts.subrange(0, k - 1));
    assert(p.last() == ts[k - 1]);
    if k < ts.len() {
        assert(ts.drop_last().subrange(0, k - 1) =~= ts.subrange(0, k - 1));
        assert(ts.drop_last()[k - 1] == ts[k - 1]);
        lemma_id_index_prefix(ts.drop_last(), k, id);
    } else {
        assert(p =~= ts);
    }
}

} // verus!
