use vstd::prelude::*;
use rand::rngs::StdRng;
use rand::{Rng, SeedableRng};
use crate::models::{ExecutionStats, Trade, TradeStatus, Side, MAX_PRICE, zero_stats};

verus! {

/// Denominator of every rate of the simulator: rates are in millionths.
pub const RATE_SCALE: u64 = 1000000;

#[verifier::external_type_specification]
#[verifier::external_body]
pub struct ExStdRng(StdRng);

/// Relies on rand's `SeedableRng::seed_from_u64` for `StdRng`: a generator
/// whose draws are fixed by the seed.
#[verifier::external_body]
fn seeded_rng(seed: u64) -> (r: StdRng) {
    StdRng::seed_from_u64(seed)
}

/// Relies on rand's `Rng::gen_range`: a value drawn from `0..bound`; the
/// range must not be empty.
#[verifier::external_body]
fn draw_below(rng: &mut StdRng, bound: u64) -> (r: u64)
    requires
        bound > 0,
    ensures
        r < bound,
{
    rng.gen_range(0..bound)
}

/// Settings of a simulated run. Rates are in millionths (`RATE_SCALE`).
#[derive(Clone, Copy, Debug, PartialEq, Eq, Structural)]
pub struct BacktestConfig {
    pub fill_rate_ppm: u64,
    /// Adverse price move applied to a fill, in millionths of the price
    /// (100 is one basis point).
    pub slippage_ppm: u64,
    pub rejection_rate_ppm: u64,
    pub margin_rate_ppm: u64,
    pub fix_order_volume: u64,
    pub min_spread_ppm: u64,
    pub spread_ppm: u64,
    pub max_order_volume: u64,
}

impl BacktestConfig {
    /// Fill, rejection and margin rates lie in `0..=RATE_SCALE`; slippage
    /// may be any amount.
    pub open spec fn valid(&self) -> bool {
        &&& self.fill_rate_ppm <= RATE_SCALE
        &&& self.rejection_rate_ppm <= RATE_SCALE
        &&& self.margin_rate_ppm <= RATE_SCALE
    }

    /// Whether the fill, rejection and margin rates lie in `0..=RATE_SCALE`.
    pub fn is_valid(&self) -> (r: bool)
        ensures
            r == self.valid(),
    {
        self.fill_rate_ppm <= RATE_SCALE && self.rejection_rate_ppm <= RATE_SCALE
            && self.margin_rate_ppm <= RATE_SCALE
    }
}

impl Default for BacktestConfig {
    fn default() -> (r: BacktestConfig)
        ensures
            r == (BacktestConfig {
                fill_rate_ppm: 950000,
                slippage_ppm: 50,
                rejection_rate_ppm: 20000,
                margin_rate_ppm: 100000,
                fix_order_volume: 0,
                min_spread_ppm: 1000,
                spread_ppm: 1000,
                max_order_volume: 0,
            }),
    {
        BacktestConfig {
            fill_rate_ppm: 950000,
            slippage_ppm: 50,
            rejection_rate_ppm: 20000,
            margin_rate_ppm: 100000,
            fix_order_volume: 0,
            min_spread_ppm: 1000,
            spread_ppm: 1000,
            max_order_volume: 0,
        }
    }
}

/// Price of a fill after slippage: raised for a buy (to at most
/// `MAX_PRICE`), lowered for a sell, rounded down.
pub open spec fn slipped_price(side: Side, price: int, slippage_ppm: int) -> int {
    match side {
        Side::Buy => {
            let p = price * (RATE_SCALE + slippage_ppm) / RATE_SCALE as int;
            if p > MAX_PRICE { MAX_PRICE as int } else { p }
        },
        Side::Sell => price * RATE_SCALE / (RATE_SCALE + slippage_ppm),
    }
}

/// What the simulator makes of a proposal given the uniform draw `r` in
/// `0..RATE_SCALE`: a draw below the rejection rate rejects it; else one
/// below the fill rate fills it with slippage; else it stays unfilled.
pub open spec fn outcome(cfg: BacktestConfig, trade: Trade, r: int) -> Trade {
    if r < cfg.rejection_rate_ppm {
        Trade { status: TradeStatus::Rejected, ..trade }
    } else if r < cfg.fill_rate_ppm {
        Trade {
            status: TradeStatus::Filled,
            price: slipped_price(trade.side, trade.price as int, cfg.slippage_ppm as int) as u64,
            ..trade
        }
    } else {
        Trade { status: TradeStatus::Unfilled, ..trade }
    }
}

/// Saturating increment.
pub open spec fn bump(x: u64, d: int) -> u64 {
    if x + d > u64::MAX { u64::MAX } else { (x + d) as u64 }
}

/// Counters after one proposal met the draw `r`.
pub open spec fn stats_after(s: ExecutionStats, cfg: BacktestConfig, trade: Trade, r: int) -> ExecutionStats {
    let t = bump(s.total_trades, 1);
    if r < cfg.rejection_rate_ppm {
        ExecutionStats { total_trades: t, rejected_trades: bump(s.rejected_trades, 1), ..s }
    } else if r < cfg.fill_rate_ppm {
        let moved = slipped_price(trade.side, trade.price as int, cfg.slippage_ppm as int) - trade.price;
        ExecutionStats {
            total_trades: t,
            filled_trades: bump(s.filled_trades, 1),
            total_slippage: bump(s.total_slippage, if moved < 0 { -moved } else { moved }),
            ..s
        }
    } else {
        ExecutionStats { total_trades: t, ..s }
    }
}

/// Price of a fill after slippage.
pub fn slip(side: Side, price: u64, slippage_ppm: u64) -> (r: u64)
    requires
        price <= MAX_PRICE,
    ensures
        r == slipped_price(side, price as int, slippage_ppm as int),
        side == Side::Buy ==> price <= r <= MAX_PRICE,
        side == Side::Sell ==> r <= price,
{
    let p = price as u128;
    match side {
        Side::Buy => {
            proof {
                assert(p * (RATE_SCALE + slippage_ppm) <= MAX_PRICE as int * (0x1_0000_0000_0000_0000 + RATE_SCALE)) by (nonlinear_arith)
                    requires
                        p <= MAX_PRICE,
                        slippage_ppm < 0x1_0000_0000_0000_0000,
                {
                }
                assert(p * RATE_SCALE <= p * (RATE_SCALE + slippage_ppm)) by (nonlinear_arith);
                vstd::arithmetic::div_mod::lemma_div_is_ordered(p * RATE_SCALE, p * (RATE_SCALE + slippage_ppm), RATE_SCALE as int);
                vstd::arithmetic::div_mod::lemma_div_multiples_vanish(p as int, RATE_SCALE as int);
                assert(p * RATE_SCALE == RATE_SCALE * p) by (nonlinear_arith);
            }
            let raised = p * (RATE_SCALE as u128 + slippage_ppm as u128) / RATE_SCALE as u128;
            if raised > MAX_PRICE as u128 { MAX_PRICE } else { raised as u64 }
        },
        Side::Sell => {
            proof {
                assert(p * RATE_SCALE <= MAX_PRICE as int * RATE_SCALE) by (nonlinear_arith)
                    requires
                        p <= MAX_PRICE,
                {
                }
                vstd::arithmetic::div_mod::lemma_div_is_ordered_by_denominator(p * RATE_SCALE, RATE_SCALE as int, RATE_SCALE + slippage_ppm);
                vstd::arithmetic::div_mod::lemma_div_multiples_vanish(p as int, RATE_SCALE as int);
                assert(p * RATE_SCALE == RATE_SCALE * p) by (nonlinear_arith);
                assert(p * RATE_SCALE >= 0) by (nonlinear_arith);
            }
            (p * RATE_SCALE as u128 / (RATE_SCALE as u128 + slippage_ppm as u128)) as u64
        },
    }
}

/// The execution simulator: fills, rejects or leaves unfilled each proposal
/// on one draw of a seeded generator.
pub struct BacktestTradeEmitter {
    pub config: BacktestConfig,
    pub rng: StdRng,
    pub stats: ExecutionStats,
}

impl BacktestTradeEmitter {
    /// A simulator whose draws are fixed by `seed`.
    pub fn new(config: BacktestConfig, seed: u64) -> (r: BacktestTradeEmitter)
        ensures
            r.config == config,
            r.stats == zero_stats(),
    {
        BacktestTradeEmitter { config, rng: seeded_rng(seed), stats: ExecutionStats::new() }
    }

    /// Settles a proposal on the draw `r`, updating the counters.
    pub fn execute_drawn(&mut self, trade: Option<Trade>, r: u64) -> (res: Option<Trade>)
        requires
            old(self).config.valid(),
            match trade {
                Some(t) => t.price <= MAX_PRICE,
                None => true,
            },
        ensures
            final(self).config == old(self).config,
            match trade {
                Some(t) => t.in_bounds() ==> res->Some_0.in_bounds(),
                None => true,
            },
            match trade {
                None => res is None && final(self).stats == old(self).stats,
                Some(t) => res == Some(outcome(old(self).config, t, r as int))
                    && final(self).stats == stats_after(old(self).stats, old(self).config, t, r as int),
            },
    {
        match trade {
            None => None,
            Some(mut t) => {
                self.stats.total_trades = self.stats.total_trades.saturating_add(1);
                if r < self.config.rejection_rate_ppm {
                    t.status = TradeStatus::Rejected;
                    self.stats.rejected_trades = self.stats.rejected_trades.saturating_add(1);
                    return Some(t);
                }
                if r < self.config.fill_rate_ppm {
                    let before = t.price;
                    let p = slip(t.side, t.price, self.config.slippage_ppm);
                    t.price = p;
                    let moved = if p >= before { p - before } else { before - p };
                    self.stats.total_slippage = self.stats.total_slippage.saturating_add(moved);
                    t.status = TradeStatus::Filled;
                    self.stats.filled_trades = self.stats.filled_trades.saturating_add(1);
                } else {
                    t.status = TradeStatus::Unfilled;
                }
                Some(t)
            },
        }
    }

    /// Settles a proposal on a fresh draw of the generator. No proposal in,
    /// no trade out.
    pub fn execute_trade(&mut self, trade: Option<Trade>) -> (res: Option<Trade>)
        requires
            old(self).config.valid(),
            match trade {
                Some(t) => t.price <= MAX_PRICE,
                None => true,
            },
        ensures
            final(self).config == old(self).config,
            match trade {
                Some(t) => t.in_bounds() ==> res->Some_0.in_bounds(),
                None => true,
            },
            match trade {
                None => res is None && final(self).stats == old(self).stats,
                Some(t) => exists|r: int| 0 <= r < RATE_SCALE
                    && res == Some(outcome(old(self).config, t, r))
                    && final(self).stats == stats_after(old(self).stats, old(self).config, t, r),
            },
    {
        match trade {
            None => None,
            Some(t) => {
                let r = draw_below(&mut self.rng, RATE_SCALE);
                self.execute_drawn(Some(t), r)
            },
        }
    }

    pub fn get_stats(&self) -> (r: ExecutionStats)
        ensures
            r == self.stats,
    {
        self.stats
    }
}

/// With no rejection and a fill rate of one, every draw fills the proposal,
/// at a price moved against the side: up for a buy, down for a sell.
pub proof fn lemma_certain_fill(cfg: BacktestConfig, trade: Trade, r: int, st: ExecutionStats)
    requires
        cfg.valid(),
        cfg.rejection_rate_ppm == 0,
        cfg.fill_rate_ppm == RATE_SCALE,
        0 <= r < RATE_SCALE,
        trade.price <= MAX_PRICE,
    ensures
        outcome(cfg, trade, r).status == TradeStatus::Filled,
        outcome(cfg, trade, r).price == slipped_price(trade.side, trade.price as int, cfg.slippage_ppm as int),
        trade.side == Side::Buy ==> outcome(cfg, trade, r).price >= trade.price,
        trade.side == Side::Sell ==> outcome(cfg, trade, r).price <= trade.price,
        outcome(cfg, trade, r).id == trade.id && outcome(cfg, trade, r).side == trade.side
            && outcome(cfg, trade, r).symbol == trade.symbol && outcome(cfg, trade, r).quantity == trade.quantity
            && outcome(cfg, trade, r).time == trade.time,
        stats_after(st, cfg, trade, r).filled_trades == bump(st.filled_trades, 1),
        stats_after(st, cfg, trade, r).rejected_trades == st.rejected_trades,
        stats_after(st, cfg, trade, r).total_trades == bump(st.total_trades, 1),
{
    let p = trade.price as int;
    let s = cfg.slippage_ppm as int;
    assert(p * RATE_SCALE <= p * (RATE_SCALE + s)) by (nonlinear_arith)
        requires
            p >= 0,
            s >= 0,
    {
    }
    vstd::arithmetic::div_mod::lemma_div_is_ordered(p * RATE_SCALE, p * (RATE_SCALE + s), RATE_SCALE as int);
    vstd::arithmetic::div_mod::lemma_div_multiples_vanish(p, RATE_SCALE as int);
    assert(p * RATE_SCALE == RATE_SCALE * p) by (nonlinear_arith);
    vstd::arithmetic::div_mod::lemma_div_is_ordered_by_denominator(p * RATE_SCALE, RATE_SCALE as int, RATE_SCALE + s);
    assert(p * RATE_SCALE >= 0) by (nonlinear_arith)
        requires
            p >= 0,
    {
    }
}

} // verus!
