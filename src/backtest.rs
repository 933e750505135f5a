//! The replay loop: snapshots through the strategy and the execution
//! simulator into the ledger.
use vstd::prelude::*;
use crate::ledger::{TradeState, id_index, status_set};
use crate::models::{Side, Trade, TradeError, TradeStatus, all_in_bounds, signed_qty};
use crate::order_book::{OrderBook, mid_of};
use crate::strategy::gpt_market_maker::{
    GptMarketMaker, GptMarketMakerConfig, NET_LIMIT, Position, abs, avg_entry, close_lots, decide, held_side,
    is_closing,
};
use crate::strategy::signals::push_window;
use crate::trading::executor::{BacktestConfig, BacktestTradeEmitter, RATE_SCALE, outcome};

verus! {

/// Status updates keep trades within bounds.
pub proof fn lemma_status_set_in_bounds(ts: Seq<Trade>, id: Seq<char>, st: TradeStatus)
    requires
        all_in_bounds(ts),
    ensures
        all_in_bounds(status_set(ts, id, st)),
{
    let k = id_index(ts, id);
    if k >= 0 {
        lemma_id_index_range(ts, id);
        let u = status_set(ts, id, st);
        assert forall|i: int| 0 <= i < u.len() implies (#[trigger] u[i]).in_bounds() by {
            assert(ts[i].in_bounds());
        }
    }
}

pub proof fn lemma_id_index_range(ts: Seq<Trade>, id: Seq<char>)
    ensures
        -1 <= id_index(ts, id) < ts.len(),
    decreases ts.len(),
{
    if ts.len() > 0 {
        lemma_id_index_range(ts.drop_last(), id);
    }
}

/// The trade handed to the simulator for the settled trade `e`: the
/// strategy's proposal, still pending, at its proposed price.
pub open spec fn proposal_of(s0: GptMarketMaker, book: OrderBook, e: Trade) -> Trade {
    Trade { status: TradeStatus::Pending, price: decide(s0, book).0->Some_0.1 as u64, ..e }
}

/// The strategy's windows and filter times after it saw `book`.
pub open spec fn windows_after(s0: GptMarketMaker, s1: GptMarketMaker, book: OrderBook) -> bool {
    if book.bids@.len() == 0 || book.asks@.len() == 0 {
        &&& s1.price_history@ == s0.price_history@
        &&& s1.momentum_prices@ == s0.momentum_prices@
        &&& s1.prices@ == s0.prices@
        &&& s1.volumes@ == s0.volumes@
        &&& s1.last_high_volatility_time == s0.last_high_volatility_time
        &&& s1.last_strong_momentum_time == s0.last_strong_momentum_time
    } else {
        let d = decide(s0, book);
        let mid = mid_of(book.bids@, book.asks@);
        let vol = book.bids@[0].1 + book.asks@[0].1;
        &&& s1.price_history@ == push_window(s0.price_history@, mid as u64, s0.config.volatility_window as int)
        &&& s1.momentum_prices@ == push_window(s0.momentum_prices@, mid as u64, s0.config.momentum_window as int)
        &&& s1.prices@ == push_window(s0.prices@, (mid * vol) as u128, s0.config.vwap_window as int)
        &&& s1.volumes@ == push_window(s0.volumes@, vol as u128, s0.config.vwap_window as int)
        &&& s1.last_high_volatility_time == d.1
        &&& s1.last_strong_momentum_time == d.2
    }
}

/// Lots, inventory and average entry price unchanged.
pub open spec fn inventory_kept(s0: GptMarketMaker, s1: GptMarketMaker) -> bool {
    &&& s1.positions@ == s0.positions@
    &&& s1.net_inventory == s0.net_inventory
    &&& s1.avg_entry_price == s0.avg_entry_price
}

/// Lots, inventory and average entry price after the fill `e`.
pub open spec fn inventory_filled(s0: GptMarketMaker, s1: GptMarketMaker, e: Trade) -> bool {
    &&& s1.positions@ == (if is_closing(s0.net_inventory as int, e.side) {
        close_lots(s0.positions@, held_side(s0.net_inventory as int), e.quantity as int)
    } else {
        s0.positions@.push(Position { quantity: e.quantity, entry_price: e.price, entry_time: e.time, side: e.side })
    })
    &&& s1.net_inventory == s0.net_inventory + signed_qty(e.side, e.quantity as int)
    &&& s1.avg_entry_price == avg_entry(s1.positions@)
}

/// The strategy proposed for `book`, the proposal was recorded with the
/// book, the simulator settled it as `e` on the draw `x`, and the record
/// took `e`'s status.
pub open spec fn settled(
    s0: GptMarketMaker,
    cfg: BacktestConfig,
    book: OrderBook,
    t0: Seq<Trade>,
    t1: Seq<Trade>,
    b0: Seq<OrderBook>,
    b1: Seq<OrderBook>,
    e: Trade,
    x: int,
) -> bool {
    let d = decide(s0, book).0->Some_0;
    &&& book.bids@.len() > 0 && book.asks@.len() > 0
    &&& decide(s0, book).0 is Some
    &&& e.side == d.0 && e.quantity == d.2 && e.symbol == s0.symbol && e.time == book.current_time
    &&& 0 <= x < RATE_SCALE
    &&& e == outcome(cfg, proposal_of(s0, book, e), x)
    &&& t1 == status_set(t0.push(proposal_of(s0, book, e)), e.id@, e.status)
    &&& b1.len() == b0.len() + 1
    &&& b1.drop_last() == b0
    &&& b1.last().same_as(book)
}

/// A step that settled a proposal as `e` on the draw `x`, and told the
/// strategy whether it filled.
pub open spec fn step_fill(
    s0: GptMarketMaker,
    s1: GptMarketMaker,
    cfg: BacktestConfig,
    book: OrderBook,
    t0: Seq<Trade>,
    t1: Seq<Trade>,
    b0: Seq<OrderBook>,
    b1: Seq<OrderBook>,
    e: Trade,
    x: int,
) -> bool {
    &&& settled(s0, cfg, book, t0, t1, b0, b1, e, x)
    &&& if e.status == TradeStatus::Filled { inventory_filled(s0, s1, e) } else { inventory_kept(s0, s1) }
}

/// One successful step of the loop on `book`: strategy `s0` becomes `s1`,
/// the recorded trades `t0` become `t1` and the recorded books `b0` become
/// `b1`. Without a proposal only the strategy's windows move; with one,
/// some draw settles it (see `step_fill`).
pub open spec fn step_ok(
    s0: GptMarketMaker,
    s1: GptMarketMaker,
    cfg: BacktestConfig,
    book: OrderBook,
    t0: Seq<Trade>,
    t1: Seq<Trade>,
    b0: Seq<OrderBook>,
    b1: Seq<OrderBook>,
) -> bool {
    &&& book.in_bounds()
    &&& s1.wf()
    &&& s1.symbol == s0.symbol
    &&& s1.config == s0.config
    &&& windows_after(s0, s1, book)
    &&& if book.bids@.len() == 0 || book.asks@.len() == 0 || decide(s0, book).0 is None {
        t1 == t0 && b1 == b0 && inventory_kept(s0, s1)
    } else {
        exists|e: Trade, x: int| #[trigger] step_fill(s0, s1, cfg, book, t0, t1, b0, b1, e, x)
    }
}

/// One snapshot through the loop. A book out of bounds is
/// `InvalidOrderBook` and changes nothing. Otherwise the strategy sees the
/// book; without a proposal nothing else happens. A proposal is recorded
/// with the book, settled by the simulator, its recorded status updated by
/// id, and the strategy told whether it filled. A fill that would carry the
/// inventory past `NET_LIMIT` is `PositionLimitExceeded`, which ends a run.
/// Gives the settled trade.
pub fn replay_step(
    ledger: &mut TradeState,
    strategy: &mut GptMarketMaker,
    executor: &mut BacktestTradeEmitter,
    book: &OrderBook,
) -> (r: Result<Option<Trade>, TradeError>)
    requires
        old(strategy).wf(),
        old(executor).config.valid(),
    ensures
        final(strategy).wf(),
        final(strategy).symbol == old(strategy).symbol,
        final(strategy).config == old(strategy).config,
        final(executor).config == old(executor).config,
        !book.in_bounds() ==> r is Err && r->Err_0 is InvalidOrderBook && final(ledger).trades() == old(ledger).trades()
            && final(ledger).books() == old(ledger).books() && *final(strategy) == *old(strategy),
        all_in_bounds(old(ledger).trades()) ==> all_in_bounds(final(ledger).trades()),
        final(ledger).trades().len() <= old(ledger).trades().len() + 1,
        final(ledger).trades().len() >= old(ledger).trades().len(),
        final(ledger).books().len() - old(ledger).books().len() == final(ledger).trades().len() - old(ledger).trades().len(),
        r is Err ==> r->Err_0 is InvalidOrderBook || r->Err_0 is PositionLimitExceeded,
        r matches Err(e) && e is InvalidOrderBook ==> !book.in_bounds(),
        book.in_bounds() && (book.bids@.len() == 0 || book.asks@.len() == 0 || decide(*old(strategy), *book).0 is None)
            ==> r matches Ok(None),
        r is Ok ==> step_ok(
            *old(strategy),
            *final(strategy),
            old(executor).config,
            *book,
            old(ledger).trades(),
            final(ledger).trades(),
            old(ledger).books(),
            final(ledger).books(),
        ),
        r matches Err(err) && err is PositionLimitExceeded ==> book.in_bounds() && exists|e: Trade, x: int|
            #[trigger] settled(
                *old(strategy),
                old(executor).config,
                *book,
                old(ledger).trades(),
                final(ledger).trades(),
                old(ledger).books(),
                final(ledger).books(),
                e,
                x,
            ) && e.status == TradeStatus::Filled && abs(old(strategy).net_inventory as int) + e.quantity > NET_LIMIT,
        r matches Ok(None) ==> final(ledger).trades() == old(ledger).trades() && final(ledger).books()
            == old(ledger).books() && (book.bids@.len() == 0 || book.asks@.len() == 0 || decide(
            *old(strategy),
            *book,
        ).0 is None),
        r matches Ok(Some(e)) ==> {
            let d = decide(*old(strategy), *book);
            let p = Trade { status: TradeStatus::Pending, price: d.0->Some_0.1 as u64, ..e };
            &&& book.bids@.len() > 0 && book.asks@.len() > 0
            &&& d.0 is Some
            &&& e.side == d.0->Some_0.0
            &&& e.quantity == d.0->Some_0.2
            &&& e.symbol == old(strategy).symbol
            &&& e.time == book.current_time
            &&& exists|x: int| 0 <= x < RATE_SCALE && e == outcome(old(executor).config, p, x)
            &&& final(ledger).trades() == status_set(old(ledger).trades().push(p), e.id@, e.status)
            &&& final(ledger).books().drop_last() == old(ledger).books()
            &&& final(ledger).books().last().same_as(*book)
            &&& final(strategy).net_inventory == old(strategy).net_inventory + if e.status == TradeStatus::Filled {
                signed_qty(e.side, e.quantity as int)
            } else {
                0
            }
        },
{
    if !book.is_in_bounds() {
        return Err(TradeError::InvalidOrderBook(String::from_str("price or quantity out of range")));
    }
    let proposal = strategy.propose_trade(book);
    let ghost mid = *strategy;
    match proposal {
        None => Ok(None),
        Some(pending) => {
            let ghost p = pending;
            proof {
                if all_in_bounds(old(ledger).trades()) {
                    assert(all_in_bounds(old(ledger).trades().push(pending))) by {
                        let q = old(ledger).trades().push(pending);
                        assert forall|i: int| 0 <= i < q.len() implies (#[trigger] q[i]).in_bounds() by {
                            if i < old(ledger).trades().len() {
                                assert(q[i] == old(ledger).trades()[i]);
                            }
                        }
                    }
                }
            }
            ledger.add(pending.duplicate());
            ledger.add_orderbook(book.clone_book());
            let executed = executor.execute_trade(Some(pending));
            proof {
                let x = choose|x: int| 0 <= x < RATE_SCALE && executed == Some(outcome(old(executor).config, p, x));
            }
            match executed {
                None => Ok(None),
                Some(e) => {
                    let ghost x = choose|x: int| 0 <= x < RATE_SCALE && Some(e) == Some(outcome(old(executor).config, p, x));
                    proof {
                        assert(e.id == p.id);
                        assert(p == Trade { status: TradeStatus::Pending, price: p.price, ..e });
                        if all_in_bounds(old(ledger).trades()) {
                            lemma_status_set_in_bounds(old(ledger).trades().push(p), e.id@, e.status);
                        }
                        lemma_id_index_range(old(ledger).trades().push(p), e.id@);
                    }
                    ledger.change_status(&e.id, e.status);
                    let filled = e.status == TradeStatus::Filled;
                    let net = strategy.net_inventory;
                    let anet: i128 = if net < 0 { -net } else { net };
                    proof {
                        assert(p == proposal_of(*old(strategy), *book, e));
                        let b1 = ledger.books();
                        assert(b1.len() == old(ledger).books().len() + 1);
                        assert(b1.drop_last() =~= old(ledger).books());
                        assert(b1.last().same_as(*book));
                        assert(e == outcome(old(executor).config, proposal_of(*old(strategy), *book, e), x));
                        assert(ledger.trades() == status_set(old(ledger).trades().push(proposal_of(*old(strategy), *book, e)), e.id@, e.status));
                        assert(settled(
                            *old(strategy),
                            old(executor).config,
                            *book,
                            old(ledger).trades(),
                            ledger.trades(),
                            old(ledger).books(),
                            ledger.books(),
                            e,
                            x,
                        ));
                    }
                    if filled && anet + e.quantity as i128 > NET_LIMIT {
                        return Err(TradeError::PositionLimitExceeded {
                            symbol: e.symbol.clone(),
                            current: net,
                            limit: NET_LIMIT,
                        });
                    }
                    strategy.update_position(&e, filled);
                    proof {
                        assert(step_fill(
                            *old(strategy),
                            *strategy,
                            old(executor).config,
                            *book,
                            old(ledger).trades(),
                            ledger.trades(),
                            old(ledger).books(),
                            ledger.books(),
                            e,
                            x,
                        ));
                    }
                    Ok(Some(e))
                },
            }
        },
    }
}

/// A run of the loop over `books`: strategies `ss`, recorded trades `ts`
/// and recorded books `bs` before and after each step, each step
/// successful (see `step_ok`).
pub open spec fn run_ok(
    books: Seq<OrderBook>,
    cfg: BacktestConfig,
    ss: Seq<GptMarketMaker>,
    ts: Seq<Seq<Trade>>,
    bs: Seq<Seq<OrderBook>>,
) -> bool {
    &&& ss.len() == books.len() + 1
    &&& ts.len() == books.len() + 1
    &&& bs.len() == books.len() + 1
    &&& ts[0].len() == 0
    &&& bs[0].len() == 0
    &&& forall|k: int| 0 <= k < books.len() ==> #[trigger] step_ok(ss[k], ss[k + 1], cfg, books[k], ts[k], ts[k + 1], bs[k], bs[k + 1])
}

/// Runs the replay loop.
pub struct BacktestEngine {
    pub config: BacktestConfig,
}

impl BacktestEngine {
    pub fn new(config: BacktestConfig) -> (r: BacktestEngine)
        ensures
            r.config == config,
    {
        BacktestEngine { config }
    }

    /// Replays `books` in order through `strategy` and a simulator seeded
    /// with `seed`, and gives the ledger. The first error ends the run and
    /// is returned; no snapshot gives an empty ledger.
    pub fn run_backtest_with_custom_strategy(
        &self,
        books: &[OrderBook],
        strategy: &mut GptMarketMaker,
        seed: u64,
    ) -> (r: Result<TradeState, TradeError>)
        requires
            old(strategy).wf(),
            self.config.valid(),
        ensures
            final(strategy).wf(),
            r matches Ok(l) ==> all_in_bounds(l.trades()) && l.books().len() == l.trades().len() && l.trades().len() <= books@.len(),
            r matches Ok(l) ==> exists|ss: Seq<GptMarketMaker>, ts: Seq<Seq<Trade>>, bs: Seq<Seq<OrderBook>>|
                #[trigger] run_ok(books@, self.config, ss, ts, bs) && ss[0] == *old(strategy)
                    && ss[books@.len() as int] == *final(strategy) && ts[books@.len() as int] == l.trades()
                    && bs[books@.len() as int] == l.books(),
            books@.len() == 0 ==> (r matches Ok(l) && l.trades().len() == 0 && l.books().len() == 0
                && *final(strategy) == *old(strategy)),
            (forall|k: int| 0 <= k < books@.len() ==> (#[trigger] books@[k]).in_bounds()) ==> !(r matches Err(e)
                && e is InvalidOrderBook),
            r is Err ==> r->Err_0 is InvalidOrderBook || r->Err_0 is PositionLimitExceeded,
            r matches Err(e) && e is InvalidOrderBook ==> exists|k: int| 0 <= k < books@.len() && !(#[trigger] books@[k]).in_bounds(),
    {
        let mut ledger = TradeState::new();
        let mut executor = BacktestTradeEmitter::new(self.config, seed);
        let ghost mut ss: Seq<GptMarketMaker> = seq![*strategy];
        let ghost mut ts: Seq<Seq<Trade>> = seq![ledger.trades()];
        let ghost mut bs: Seq<Seq<OrderBook>> = seq![ledger.books()];
        let mut i: usize = 0;
        while i < books.len()
            invariant
                i <= books@.len(),
                strategy.wf(),
                executor.config == self.config,
                self.config.valid(),
                all_in_bounds(ledger.trades()),
                ledger.books().len() == ledger.trades().len(),
                ledger.trades().len() <= i,
                ss.len() == i + 1,
                ts.len() == i + 1,
                bs.len() == i + 1,
                ss[0] == *old(strategy),
                ss[i as int] == *strategy,
                ts[i as int] == ledger.trades(),
                bs[i as int] == ledger.books(),
                ts[0].len() == 0,
                bs[0].len() == 0,
                forall|k: int| 0 <= k < i ==> (#[trigger] books@[k]).in_bounds(),
                forall|k: int| 0 <= k < i ==> #[trigger] step_ok(ss[k], ss[k + 1], self.config, books@[k], ts[k], ts[k + 1], bs[k], bs[k + 1]),
            decreases books@.len() - i,
        {
            let step = replay_step(&mut ledger, strategy, &mut executor, &books[i]);
            match step {
                Err(e) => {
                    proof {
                        if e is InvalidOrderBook {
                            assert(!books@[i as int].in_bounds());
                        }
                    }
                    return Err(e);
                },
                Ok(_) => {},
            }
            proof {
                let ss0 = ss;
                let ts0 = ts;
                let bs0 = bs;
                ss = ss.push(*strategy);
                ts = ts.push(ledger.trades());
                bs = bs.push(ledger.books());
                assert forall|k: int| 0 <= k < i + 1 implies #[trigger] step_ok(ss[k], ss[k + 1], self.config, books@[k], ts[k], ts[k + 1], bs[k], bs[k + 1]) by {
                    if k < i {
                        assert(ss[k] == ss0[k] && ss[k + 1] == ss0[k + 1]);
                        assert(ts[k] == ts0[k] && ts[k + 1] == ts0[k + 1]);
                        assert(bs[k] == bs0[k] && bs[k + 1] == bs0[k + 1]);
                    }
                }
            }
            i = i + 1;
        }
        proof {
            assert(run_ok(books@, self.config, ss, ts, bs));
        }
        Ok(ledger)
    }
}

/// The strategy named `name` for `symbol`; the market maker is "gpt", any
/// other name is `InvalidTradeParameters`, as is an invalid configuration.
pub fn build_strategy(name: &String, symbol: String, config: GptMarketMakerConfig) -> (r: Result<GptMarketMaker, TradeError>)
    ensures
        r is Ok <==> name@ == "gpt"@ && config.valid(),
        r matches Ok(s) ==> s.wf() && s.symbol == symbol && s.config == config && s.is_reset(),
        r is Err ==> r->Err_0 is InvalidTradeParameters,
{
    let gpt = String::from_str("gpt");
    if *name != gpt {
        return Err(TradeError::InvalidTradeParameters(String::from_str("unknown strategy")));
    }
    match config.validate() {
        Err(e) => Err(e),
        Ok(()) => Ok(GptMarketMaker::new(symbol, config)),
    }
}

} // verus!
