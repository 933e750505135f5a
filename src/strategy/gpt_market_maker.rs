//! A market maker driven by order-book imbalance, VWAP, volatility and
//! momentum filters, with exits on profit, loss, age and inventory.
use vstd::prelude::*;
use crate::models::{Side, Trade, TradeError, TradeStatus, MAX_PRICE, MAX_QUANTITY, signed_qty};
use crate::order_book::{OrderBook, PPM, mid_of, top_qty, top_volume};
use crate::strategy::signals::{
    MAX_WINDOW, momentum_breach, momentum_exceeds, prices_ok, push_window, push_window_exec,
    volatility_breach, volatility_exceeds,
};

verus! {

/// Bound on the magnitude of the net inventory, in lots.
pub const NET_LIMIT: i128 = 0x4000_0000_0000_0000;

/// Basis points in one.
pub const BPS: i128 = 10000;

/// Settings of the market maker. Quantities are in lots, prices in ticks,
/// thresholds named `_bps` in basis points and the other ratios in
/// millionths.
#[derive(Clone, Copy, Debug, PartialEq, Eq, Structural)]
pub struct GptMarketMakerConfig {
    pub fix_order_volume: u64,
    pub vwap_window: usize,
    /// Imbalance threshold, in millionths.
    pub obi_threshold: u64,
    pub max_inventory: u64,
    pub use_limit_orders: bool,
    pub limit_order_spread_bps: u64,
    pub take_profit_bps: u64,
    pub stop_loss_bps: u64,
    pub max_position_age_ms: i64,
    /// Inventory ratio from which profitable inventory is reduced, in millionths.
    pub inventory_reduction_threshold: u64,
    /// Inventory ratio from which inventory is closed near break-even, in millionths.
    pub aggressive_close_threshold: u64,
    pub min_profit_bps: u64,
    pub volatility_window: usize,
    /// Largest tolerated standard deviation of returns, in millionths.
    pub max_volatility_threshold: u64,
    pub volatility_cooldown_ms: i64,
    pub momentum_window: usize,
    /// Largest tolerated momentum, in millionths.
    pub momentum_threshold: u64,
    pub momentum_cooldown_ms: i64,
}

impl GptMarketMakerConfig {
    /// Windows are between one and `MAX_WINDOW` samples, the inventory cap is
    /// positive, and every threshold lies within the range the arithmetic
    /// is proved for.
    pub open spec fn valid(&self) -> bool {
        &&& 1 <= self.vwap_window <= MAX_WINDOW
        &&& 1 <= self.volatility_window <= MAX_WINDOW
        &&& 1 <= self.momentum_window <= MAX_WINDOW
        &&& 1 <= self.max_inventory <= 0x100_0000_0000
        &&& self.fix_order_volume <= MAX_QUANTITY
        &&& self.obi_threshold <= 0x100_0000
        &&& self.limit_order_spread_bps <= 10000
        &&& self.min_profit_bps <= 10000
        &&& self.take_profit_bps <= 0x1_0000_0000
        &&& self.stop_loss_bps <= 0x1_0000_0000
        &&& self.inventory_reduction_threshold <= 0x100_0000
        &&& self.aggressive_close_threshold <= 0x100_0000
        &&& self.max_volatility_threshold <= 0x1_0000_0000
        &&& self.momentum_threshold <= 0x1_0000_0000
    }

    /// Accepts a valid configuration; anything else is
    /// `InvalidTradeParameters`.
    pub fn validate(&self) -> (r: Result<(), TradeError>)
        ensures
            r is Ok <==> self.valid(),
            r is Err ==> r->Err_0 is InvalidTradeParameters,
    {
        if 1 <= self.vwap_window && self.vwap_window <= MAX_WINDOW && 1 <= self.volatility_window
            && self.volatility_window <= MAX_WINDOW && 1 <= self.momentum_window
            && self.momentum_window <= MAX_WINDOW && 1 <= self.max_inventory
            && self.max_inventory <= 0x100_0000_0000 && self.fix_order_volume <= MAX_QUANTITY
            && self.obi_threshold <= 0x100_0000 && self.limit_order_spread_bps <= 10000
            && self.min_profit_bps <= 10000 && self.take_profit_bps <= 0x1_0000_0000
            && self.stop_loss_bps <= 0x1_0000_0000 && self.inventory_reduction_threshold <= 0x100_0000
            && self.aggressive_close_threshold <= 0x100_0000
            && self.max_volatility_threshold <= 0x1_0000_0000
            && self.momentum_threshold <= 0x1_0000_0000 {
            Ok(())
        } else {
            Err(TradeError::InvalidTradeParameters(String::from_str("market maker settings out of range")))
        }
    }
}

impl Default for GptMarketMakerConfig {
    /// Defaults for lots of a thousandth of a unit.
    fn default() -> (r: GptMarketMakerConfig)
        ensures
            r.valid(),
            r.fix_order_volume == 5,
            r.vwap_window == 100,
            r.volatility_window == 30,
            r.momentum_window == 10,
    {
        GptMarketMakerConfig {
            fix_order_volume: 5,
            vwap_window: 100,
            obi_threshold: 100000,
            max_inventory: 10000,
            use_limit_orders: true,
            limit_order_spread_bps: 5,
            take_profit_bps: 20,
            stop_loss_bps: 50,
            max_position_age_ms: 300000,
            inventory_reduction_threshold: 700000,
            aggressive_close_threshold: 900000,
            min_profit_bps: 5,
            volatility_window: 30,
            max_volatility_threshold: 5,
            volatility_cooldown_ms: 5000,
            momentum_window: 10,
            momentum_threshold: 1500,
            momentum_cooldown_ms: 3000,
        }
    }
}

/// An open lot of the strategy's inventory.
#[derive(Clone, Copy, Debug, PartialEq, Eq, Structural)]
pub struct Position {
    pub quantity: u64,
    pub entry_price: u64,
    pub entry_time: i64,
    pub side: Side,
}

pub open spec fn abs(x: int) -> int {
    if x < 0 { -x } else { x }
}

/// Total quantity of lots.
pub open spec fn lots_q(lots: Seq<Position>) -> int
    decreases lots.len(),
{
    if lots.len() == 0 { 0 } else { lots_q(lots.drop_last()) + lots.last().quantity }
}

/// Total entry cost of lots.
pub open spec fn lots_cost(lots: Seq<Position>) -> int
    decreases lots.len(),
{
    if lots.len() == 0 {
        0
    } else {
        lots_cost(lots.drop_last()) + lots.last().quantity * lots.last().entry_price
    }
}

/// Pnl of one lot marked at `cur`, in hundredths of a basis point of its
/// entry price (millionths), rounded down: a long gains as the price rises,
/// a short as it falls; zero for a zero entry price.
pub open spec fn lot_ret(l: Position, cur: int) -> int {
    if l.entry_price == 0 {
        0
    } else {
        match l.side {
            Side::Buy => (cur - l.entry_price) * PPM / (l.entry_price as int),
            Side::Sell => (l.entry_price - cur) * PPM / (l.entry_price as int),
        }
    }
}

/// Sum over lots of quantity times the lot's pnl (see `lot_ret`). Divided
/// by the inventory's size it is the quantity-weighted mean pnl.
pub open spec fn lots_weighted(lots: Seq<Position>, cur: int) -> int
    decreases lots.len(),
{
    if lots.len() == 0 {
        0
    } else {
        lots_weighted(lots.drop_last(), cur) + lots.last().quantity * lot_ret(lots.last(), cur)
    }
}

/// Bound on the magnitude of one lot's pnl in millionths.
pub open spec fn lot_ret_bound() -> int {
    MAX_PRICE as int * PPM
}

pub proof fn lemma_lot_ret_bound(l: Position, cur: int)
    requires
        l.entry_price <= MAX_PRICE,
        0 <= cur <= MAX_PRICE,
    ensures
        -lot_ret_bound() <= lot_ret(l, cur) <= lot_ret_bound(),
{
    if l.entry_price > 0 {
        let e = l.entry_price as int;
        let n = match l.side {
            Side::Buy => (cur - e) * PPM,
            Side::Sell => (e - cur) * PPM,
        };
        assert(-lot_ret_bound() * e <= n <= lot_ret_bound() * e) by (nonlinear_arith)
            requires
                n == (cur - e) * PPM || n == (e - cur) * PPM,
                1 <= e <= MAX_PRICE,
                0 <= cur <= MAX_PRICE,
                lot_ret_bound() == MAX_PRICE as int * PPM,
        {
        }
        vstd::arithmetic::div_mod::lemma_div_is_ordered(n, lot_ret_bound() * e, e);
        vstd::arithmetic::div_mod::lemma_div_is_ordered(-lot_ret_bound() * e, n, e);
        vstd::arithmetic::div_mod::lemma_div_multiples_vanish(lot_ret_bound(), e);
        vstd::arithmetic::div_mod::lemma_div_multiples_vanish(-lot_ret_bound(), e);
        assert(lot_ret_bound() * e == e * lot_ret_bound()) by (nonlinear_arith);
        assert(-lot_ret_bound() * e == e * -lot_ret_bound()) by (nonlinear_arith);
    }
}

/// Age of the oldest lot at `now`; zero without lots.
pub open spec fn oldest_age(lots: Seq<Position>, now: int) -> int
    decreases lots.len(),
{
    if lots.len() == 0 {
        0
    } else {
        let a = oldest_age(lots.drop_last(), now);
        let b = now - lots.last().entry_time;
        if b > a { b } else { a }
    }
}

/// Quantity-weighted mean entry price of the lots, rounded down; zero when
/// they hold nothing.
pub open spec fn avg_entry(lots: Seq<Position>) -> int {
    if lots_q(lots) > 0 { lots_cost(lots) / lots_q(lots) } else { 0 }
}

/// Lots that hold something are on the side of the net inventory, and hold
/// no more than its size.
pub open spec fn inventory_consistent(lots: Seq<Position>, net: int) -> bool {
    &&& lots_q(lots) <= abs(net)
    &&& forall|i: int| 0 <= i < lots.len() && (#[trigger] lots[i]).quantity > 0 ==> ((lots[i].side == Side::Buy
        && net > 0) || (lots[i].side == Side::Sell && net < 0))
}

/// Lots within the accepted bounds.
pub open spec fn lots_ok(lots: Seq<Position>) -> bool {
    forall|i: int| 0 <= i < lots.len() ==> (#[trigger] lots[i]).quantity <= MAX_QUANTITY
        && lots[i].entry_price <= MAX_PRICE
}

/// Closes up to `rem` of the lots on `side`, oldest first, splitting the
/// last lot touched; lots on the other side are kept.
pub open spec fn close_lots(lots: Seq<Position>, side: Side, rem: int) -> Seq<Position>
    decreases lots.len(),
{
    if lots.len() == 0 || rem <= 0 {
        lots
    } else if lots[0].side == side {
        if lots[0].quantity <= rem {
            close_lots(lots.drop_first(), side, rem - lots[0].quantity)
        } else {
            seq![Position { quantity: (lots[0].quantity - rem) as u64, ..lots[0] }] + lots.drop_first()
        }
    } else {
        seq![lots[0]] + close_lots(lots.drop_first(), side, rem)
    }
}

/// Side of the lots that a fill against an inventory of sign `net` closes.
pub open spec fn held_side(net: int) -> Side {
    if net > 0 { Side::Buy } else { Side::Sell }
}

/// A fill on `side` works against the inventory `net`.
pub open spec fn is_closing(net: int, side: Side) -> bool {
    (net > 0 && side == Side::Sell) || (net < 0 && side == Side::Buy)
}

pub proof fn lemma_lots_q_first(lots: Seq<Position>)
    requires
        lots.len() > 0,
    ensures
        lots_q(lots) == lots[0].quantity + lots_q(lots.drop_first()),
        lots_cost(lots) == lots[0].quantity * lots[0].entry_price + lots_cost(lots.drop_first()),
    decreases lots.len(),
{
    if lots.len() > 1 {
        lemma_lots_q_first(lots.drop_last());
        assert(lots.drop_last().drop_first() =~= lots.drop_first().drop_last());
        assert(lots.drop_first().last() == lots.last());
        assert(lots.drop_last()[0] == lots[0]);
    } else {
        assert(lots.drop_first().len() == 0);
        assert(lots.drop_last().len() == 0);
        assert(lots.last() == lots[0]);
        assert(lots_q(lots.drop_first()) == 0);
        assert(lots_q(lots.drop_last()) == 0);
        assert(lots_cost(lots.drop_first()) == 0);
        assert(lots_cost(lots.drop_last()) == 0);
    }
}

pub proof fn lemma_lots_q_nonneg(lots: Seq<Position>)
    ensures
        lots_q(lots) >= 0,
        lots_cost(lots) >= 0,
    decreases lots.len(),
{
    if lots.len() > 0 {
        lemma_lots_q_nonneg(lots.drop_last());
        assert(lots.last().quantity * lots.last().entry_price >= 0) by (nonlinear_arith);
    }
}

/// Closing removes exactly `min(rem, held)` when every lot that holds
/// something is on the closed side, keeps that property, and keeps lots in
/// bounds.
pub proof fn lemma_close_lots(lots: Seq<Position>, side: Side, rem: int)
    requires
        rem >= 0,
        lots_ok(lots),
        forall|i: int| 0 <= i < lots.len() && (#[trigger] lots[i]).quantity > 0 ==> lots[i].side == side,
    ensures
        lots_q(close_lots(lots, side, rem)) == lots_q(lots) - if rem <= lots_q(lots) { rem } else { lots_q(lots) },
        lots_ok(close_lots(lots, side, rem)),
        forall|i: int| 0 <= i < close_lots(lots, side, rem).len() && (#[trigger] close_lots(lots, side, rem)[i]).quantity > 0
            ==> close_lots(lots, side, rem)[i].side == side,
    decreases lots.len(),
{
    lemma_lots_q_nonneg(lots);
    if lots.len() == 0 || rem <= 0 {
    } else {
        let rest = lots.drop_first();
        lemma_lots_q_first(lots);
        lemma_lots_q_nonneg(rest);
        assert(lots_ok(rest)) by {
            assert forall|i: int| 0 <= i < rest.len() implies (#[trigger] rest[i]).quantity <= MAX_QUANTITY
                && rest[i].entry_price <= MAX_PRICE by {
                assert(rest[i] == lots[i + 1]);
            }
        }
        assert forall|i: int| 0 <= i < rest.len() && (#[trigger] rest[i]).quantity > 0 implies rest[i].side == side by {
            assert(rest[i] == lots[i + 1]);
        }
        if lots[0].side == side {
            if lots[0].quantity <= rem {
                lemma_close_lots(rest, side, rem - lots[0].quantity);
            } else {
                let l = Position { quantity: (lots[0].quantity - rem) as u64, ..lots[0] };
                let r = seq![l] + rest;
                assert(r.drop_first() =~= rest);
                assert(r[0] == l);
                lemma_lots_q_first(r);
                assert forall|i: int| 0 <= i < r.len() implies (#[trigger] r[i]).quantity <= MAX_QUANTITY
                    && r[i].entry_price <= MAX_PRICE by {
                    if i > 0 {
                        assert(r[i] == rest[i - 1]);
                    }
                }
                assert forall|i: int| 0 <= i < r.len() && (#[trigger] r[i]).quantity > 0 implies r[i].side == side by {
                    if i > 0 {
                        assert(r[i] == rest[i - 1]);
                    }
                }
            }
        } else {
            assert(lots[0].quantity == 0);
            lemma_close_lots(rest, side, rem);
            let c = close_lots(rest, side, rem);
            let r = seq![lots[0]] + c;
            assert(r.drop_first() =~= c);
            assert(r[0] == lots[0]);
            lemma_lots_q_first(r);
            assert forall|i: int| 0 <= i < r.len() implies (#[trigger] r[i]).quantity <= MAX_QUANTITY
                && r[i].entry_price <= MAX_PRICE by {
                if i > 0 {
                    assert(r[i] == c[i - 1]);
                }
            }
            assert forall|i: int| 0 <= i < r.len() && (#[trigger] r[i]).quantity > 0 implies r[i].side == side by {
                if i > 0 {
                    assert(r[i] == c[i - 1]);
                }
            }
        }
    }
}

pub proof fn lemma_lots_push(lots: Seq<Position>, l: Position)
    ensures
        lots_q(lots.push(l)) == lots_q(lots) + l.quantity,
        lots_cost(lots.push(l)) == lots_cost(lots) + l.quantity * l.entry_price,
{
    assert(lots.push(l).drop_last() =~= lots);
}

/// The mean entry price of lots in bounds is in bounds.
pub proof fn lemma_avg_entry_bound(lots: Seq<Position>)
    requires
        lots_ok(lots),
    ensures
        0 <= avg_entry(lots) <= MAX_PRICE,
        lots_cost(lots) <= MAX_PRICE as int * lots_q(lots),
    decreases lots.len(),
{
    lemma_lots_q_nonneg(lots);
    if lots.len() > 0 {
        let d = lots.drop_last();
        assert(lots_ok(d)) by {
            assert forall|i: int| 0 <= i < d.len() implies (#[trigger] d[i]).quantity <= MAX_QUANTITY
                && d[i].entry_price <= MAX_PRICE by {
                assert(d[i] == lots[i]);
            }
        }
        lemma_avg_entry_bound(d);
        let l = lots.last();
        assert(l == lots[lots.len() - 1]);
        assert(l.quantity * l.entry_price <= MAX_PRICE as int * l.quantity) by (nonlinear_arith)
            requires
                l.entry_price <= MAX_PRICE,
        {
        }
    }
    if lots_q(lots) > 0 {
        vstd::arithmetic::div_mod::lemma_div_is_ordered(lots_cost(lots), MAX_PRICE as int * lots_q(lots), lots_q(lots));
        vstd::arithmetic::div_mod::lemma_div_multiples_vanish(MAX_PRICE as int, lots_q(lots));
        assert(MAX_PRICE as int * lots_q(lots) == lots_q(lots) * MAX_PRICE as int) by (nonlinear_arith);
        vstd::arithmetic::div_mod::lemma_div_pos_is_pos(lots_cost(lots), lots_q(lots));
    }
}

/// One lot never holds more than all of them.
pub proof fn lemma_lot_le_total(lots: Seq<Position>, i: int)
    requires
        0 <= i < lots.len(),
    ensures
        lots[i].quantity <= lots_q(lots),
    decreases lots.len(),
{
    lemma_lots_q_nonneg(lots.drop_last());
    if i < lots.len() - 1 {
        lemma_lot_le_total(lots.drop_last(), i);
        assert(lots.drop_last()[i] == lots[i]);
    }
}

/// Totals over a prefix of the lots are at most the totals over all.
pub proof fn lemma_lots_prefix(lots: Seq<Position>, k: int)
    requires
        0 <= k <= lots.len(),
    ensures
        0 <= lots_q(lots.subrange(0, k)) <= lots_q(lots),
        0 <= lots_cost(lots.subrange(0, k)) <= lots_cost(lots),
    decreases lots.len(),
{
    lemma_lots_q_nonneg(lots.subrange(0, k));
    if lots.len() > 0 {
        if k == lots.len() {
            assert(lots.subrange(0, k) =~= lots);
        } else {
            lemma_lots_prefix(lots.drop_last(), k);
            assert(lots.drop_last().subrange(0, k) =~= lots.subrange(0, k));
            assert(lots.last().quantity * lots.last().entry_price >= 0) by (nonlinear_arith);
        }
    }
}

/// Total quantity and entry cost of lots.
fn lots_totals(lots: &Vec<Position>) -> (r: (u128, u128))
    requires
        lots_ok(lots@),
        lots_q(lots@) <= NET_LIMIT,
    ensures
        r.0 == lots_q(lots@),
        r.1 == lots_cost(lots@),
        r.1 <= MAX_PRICE as int * r.0,
{
    proof {
        lemma_avg_entry_bound(lots@);
    }
    let mut q: u128 = 0;
    let mut c: u128 = 0;
    let mut i: usize = 0;
    while i < lots.len()
        invariant
            i <= lots@.len(),
            lots_ok(lots@),
            lots_q(lots@) <= NET_LIMIT,
            lots_cost(lots@) <= MAX_PRICE as int * lots_q(lots@),
            q == lots_q(lots@.subrange(0, i as int)),
            c == lots_cost(lots@.subrange(0, i as int)),
        decreases lots@.len() - i,
    {
        let ghost sub = lots@.subrange(0, i + 1);
        proof {
            assert(sub.drop_last() =~= lots@.subrange(0, i as int));
            assert(sub.last() == lots@[i as int]);
            lemma_lots_prefix(lots@, i + 1);
            assert(MAX_PRICE as int * lots_q(lots@) <= MAX_PRICE as int * NET_LIMIT) by (nonlinear_arith)
                requires
                    lots_q(lots@) <= NET_LIMIT,
            {
            }
        }
        let l = lots[i];
        q = q + l.quantity as u128;
        c = c + l.quantity as u128 * l.entry_price as u128;
        i = i + 1;
    }
    proof {
        assert(lots@.subrange(0, i as int) =~= lots@);
    }
    (q, c)
}

/// Quantity-weighted pnl sum of lots marked at `cur` (see
/// `lots_weighted`), and the age of the oldest at `now`.
fn lots_weighted_age(lots: &Vec<Position>, cur: u64, now: i64) -> (r: (i128, i128))
    requires
        lots_ok(lots@),
        lots_q(lots@) <= NET_LIMIT,
        cur <= MAX_PRICE,
    ensures
        r.0 == lots_weighted(lots@, cur as int),
        r.1 == oldest_age(lots@, now as int),
        -lot_ret_bound() * lots_q(lots@) <= r.0 <= lot_ret_bound() * lots_q(lots@),
{
    let mut w: i128 = 0;
    let mut age: i128 = 0;
    let mut i: usize = 0;
    while i < lots.len()
        invariant
            i <= lots@.len(),
            lots_ok(lots@),
            lots_q(lots@) <= NET_LIMIT,
            cur <= MAX_PRICE,
            w == lots_weighted(lots@.subrange(0, i as int), cur as int),
            age == oldest_age(lots@.subrange(0, i as int), now as int),
            i64::MIN as int - i64::MAX as int <= age <= i64::MAX as int - i64::MIN as int,
            -lot_ret_bound() * lots_q(lots@.subrange(0, i as int)) <= w <= lot_ret_bound() * lots_q(lots@.subrange(0, i as int)),
            lot_ret_bound() == 2147483648000000,
        decreases lots@.len() - i,
    {
        let ghost pre = lots@.subrange(0, i as int);
        let ghost sub = lots@.subrange(0, i + 1);
        let l = lots[i];
        proof {
            assert(sub.drop_last() =~= pre);
            assert(sub.last() == l);
            lemma_lots_prefix(lots@, i + 1);
            lemma_lot_ret_bound(l, cur as int);
        }
        let r: i128 = if l.entry_price == 0 {
            0
        } else {
            match l.side {
                Side::Buy => crate::order_book::floor_div((cur as i128 - l.entry_price as i128) * PPM, l.entry_price as i128),
                Side::Sell => crate::order_book::floor_div((l.entry_price as i128 - cur as i128) * PPM, l.entry_price as i128),
            }
        };
        proof {
            let d = l.quantity * r;
            assert(-lot_ret_bound() * l.quantity <= d <= lot_ret_bound() * l.quantity) by (nonlinear_arith)
                requires
                    d == l.quantity * r,
                    -lot_ret_bound() <= r <= lot_ret_bound(),
                    l.quantity >= 0,
            {
            }
            assert(lot_ret_bound() * lots_q(sub) <= lot_ret_bound() * NET_LIMIT) by (nonlinear_arith)
                requires
                    lots_q(sub) <= NET_LIMIT,
                    lot_ret_bound() >= 0,
            {
            }
            assert(lots_q(sub) == lots_q(pre) + l.quantity);
            assert(-lot_ret_bound() * lots_q(sub) <= w + d <= lot_ret_bound() * lots_q(sub)) by (nonlinear_arith)
                requires
                    -lot_ret_bound() * lots_q(pre) <= w <= lot_ret_bound() * lots_q(pre),
                    -lot_ret_bound() * l.quantity <= d <= lot_ret_bound() * l.quantity,
                    lots_q(sub) == lots_q(pre) + l.quantity,
            {
            }
            assert(l.quantity <= MAX_QUANTITY);
            assert(-lot_ret_bound() * MAX_QUANTITY <= d <= lot_ret_bound() * MAX_QUANTITY) by (nonlinear_arith)
                requires
                    -lot_ret_bound() * l.quantity <= d <= lot_ret_bound() * l.quantity,
                    0 <= l.quantity <= MAX_QUANTITY,
                    lot_ret_bound() >= 0,
            {
            }
        }
        w = w + l.quantity as i128 * r;
        let b = now as i128 - l.entry_time as i128;
        if b > age {
            age = b;
        }
        i = i + 1;
    }
    proof {
        assert(lots@.subrange(0, i as int) =~= lots@);
    }
    (w, age)
}

/// Mean entry price of lots, rounded down; zero when they hold nothing.
fn lots_avg(lots: &Vec<Position>) -> (r: u64)
    requires
        lots_ok(lots@),
        lots_q(lots@) <= NET_LIMIT,
    ensures
        r == avg_entry(lots@),
{
    proof {
        lemma_avg_entry_bound(lots@);
    }
    let (q, c) = lots_totals(lots);
    if q > 0 {
        (c / q) as u64
    } else {
        0
    }
}

/// Sum of a window of samples.
pub open spec fn seq_sum(w: Seq<u128>) -> int
    decreases w.len(),
{
    if w.len() == 0 { 0 } else { seq_sum(w.drop_last()) + w.last() }
}

/// The entry filter at `now`, checked in order: inside the volatility
/// cooldown, or else the momentum cooldown, entries are off; else a
/// volatility breach turns them off and restarts its cooldown; else a
/// momentum breach does the same for its own. Gives whether entries are
/// allowed and the two filter times after the check.
pub open spec fn gate(cfg: GptMarketMakerConfig, ph: Seq<u64>, mp: Seq<u64>, vt: i64, mt: i64, now: i64) -> (bool, i64, i64) {
    if now - vt < cfg.volatility_cooldown_ms {
        (false, vt, mt)
    } else if now - mt < cfg.momentum_cooldown_ms {
        (false, vt, mt)
    } else if volatility_breach(ph, cfg.max_volatility_threshold as int) {
        (false, now, mt)
    } else if momentum_breach(mp, cfg.momentum_threshold as int) {
        (false, vt, now)
    } else {
        (true, vt, mt)
    }
}

/// The quantity-weighted mean pnl `w / n` (`w` in hundredths of a basis
/// point times lots, `n` the inventory's size) is at least `x` basis points.
pub open spec fn pnl_at_least(w: int, n: int, x: int) -> bool {
    w >= x * 100 * n
}

/// The quantity-weighted mean pnl `w / n` is at most `x` basis points.
pub open spec fn pnl_at_most(w: int, n: int, x: int) -> bool {
    w <= x * 100 * n
}

/// |net| / max_inventory is at least `th` millionths.
pub open spec fn ratio_at_least(net: int, th: int, max_inv: int) -> bool {
    abs(net) * PPM >= th * max_inv
}

/// Exit rule, with an inventory: first of take profit, stop loss, age of the
/// oldest lot, inventory reduction while in profit, aggressive close near
/// break-even. The pnl tested is the mean of the lots' pnl in basis points
/// (`lot_ret`), weighted by their quantity over the inventory's size.
pub open spec fn close_signal(cfg: GptMarketMakerConfig, lots: Seq<Position>, net: int, mid: int, now: int) -> bool {
    let g = lots_weighted(lots, mid);
    let c = abs(net);
    net != 0 && (pnl_at_least(g, c, cfg.take_profit_bps as int) || pnl_at_most(g, c, -(cfg.stop_loss_bps as int))
        || oldest_age(lots, now) > cfg.max_position_age_ms || (ratio_at_least(
        net,
        cfg.inventory_reduction_threshold as int,
        cfg.max_inventory as int,
    ) && pnl_at_least(g, c, cfg.min_profit_bps as int)) || (ratio_at_least(
        net,
        cfg.aggressive_close_threshold as int,
        cfg.max_inventory as int,
    ) && pnl_at_least(g, c, -(cfg.min_profit_bps as int))))
}

/// A price no higher than `MAX_PRICE`.
pub open spec fn cap_price(x: int) -> int {
    if x > MAX_PRICE { MAX_PRICE as int } else { x }
}

/// The closing order: sell a long at the best bid, or buy back a short at the
/// best ask; with limit orders the price is moved toward the average entry
/// price plus (long) or minus (short) the minimum profit. Sized at the fixed
/// order volume or the whole inventory, whichever is smaller.
pub open spec fn close_order(cfg: GptMarketMakerConfig, net: int, avg: int, bid: int, ask: int) -> (Side, int, int) {
    let qty = if cfg.fix_order_volume < abs(net) { cfg.fix_order_volume as int } else { abs(net) };
    if net > 0 {
        let raised = avg * (BPS + cfg.min_profit_bps) / (BPS as int);
        (Side::Sell, if cfg.use_limit_orders { cap_price(if bid > raised { bid } else { raised }) } else { bid }, qty)
    } else {
        let lowered = avg * (BPS - cfg.min_profit_bps) / (BPS as int);
        (Side::Buy, if cfg.use_limit_orders { if ask < lowered { ask } else { lowered } } else { ask }, qty)
    }
}

/// The opening order, if any: buy when the top-level imbalance exceeds the
/// threshold scaled by (1 + inventory ratio), the mid price is below the
/// VWAP (`spv / sv`) and the inventory is below its reduction level; sell on
/// the mirror conditions. A limit buy is priced below the best bid by the
/// configured spread, a limit sell above the best ask; market orders take
/// the other side's best price.
pub open spec fn entry_order(
    cfg: GptMarketMakerConfig,
    net: int,
    bids: Seq<(u64, u64)>,
    asks: Seq<(u64, u64)>,
    mid: int,
    spv: int,
    sv: int,
) -> Option<(Side, int, int)> {
    let b = top_qty(bids);
    let a = top_qty(asks);
    let m = cfg.max_inventory as int;
    let adj = cfg.obi_threshold * (m + abs(net)) * (b + a);
    let lvl = m * cfg.inventory_reduction_threshold;
    if (b - a) * PPM * m > adj && mid * sv < spv && net * PPM < lvl {
        Some((
            Side::Buy,
            if cfg.use_limit_orders {
                bids[0].0 * (BPS - cfg.limit_order_spread_bps) / (BPS as int)
            } else {
                asks[0].0 as int
            },
            cfg.fix_order_volume as int,
        ))
    } else if (b - a) * PPM * m < -adj && mid * sv > spv && net * PPM > -lvl {
        Some((
            Side::Sell,
            if cfg.use_limit_orders {
                cap_price(asks[0].0 * (BPS + cfg.limit_order_spread_bps) / (BPS as int))
            } else {
                bids[0].0 as int
            },
            cfg.fix_order_volume as int,
        ))
    } else {
        None
    }
}

/// What the market maker in state `s` does with a book whose sides are both
/// non-empty: it pushes the mid price into its price windows and mid × top
/// volume into its VWAP windows; until the VWAP window is full (or without
/// volume) it proposes nothing; else it runs the entry filter, proposes an
/// exit when the exit rule fires, and otherwise an entry if the filter
/// allows one. Gives the proposal (side, price, quantity) and the two
/// filter times after the step.
pub open spec fn decide(s: GptMarketMaker, book: OrderBook) -> (Option<(Side, int, int)>, i64, i64) {
    let cfg = s.config;
    let bids = book.bids@;
    let asks = book.asks@;
    let mid = mid_of(bids, asks);
    let vol = bids[0].1 + asks[0].1;
    let ph = push_window(s.price_history@, mid as u64, cfg.volatility_window as int);
    let mp = push_window(s.momentum_prices@, mid as u64, cfg.momentum_window as int);
    let pv = push_window(s.prices@, (mid * vol) as u128, cfg.vwap_window as int);
    let v = push_window(s.volumes@, vol as u128, cfg.vwap_window as int);
    let now = book.current_time;
    if v.len() < cfg.vwap_window || seq_sum(v) == 0 {
        (None, s.last_high_volatility_time, s.last_strong_momentum_time)
    } else {
        let g = gate(cfg, ph, mp, s.last_high_volatility_time, s.last_strong_momentum_time, now);
        let net = s.net_inventory as int;
        if close_signal(cfg, s.positions@, net, mid, now as int) {
            (Some(close_order(cfg, net, s.avg_entry_price as int, bids[0].0 as int, asks[0].0 as int)), g.1, g.2)
        } else if !g.0 {
            (None, g.1, g.2)
        } else {
            (entry_order(cfg, net, bids, asks, mid, seq_sum(pv), seq_sum(v)), g.1, g.2)
        }
    }
}

/// The market maker. It keeps rolling windows of mid price times volume and
/// of volume (for the VWAP), of mid prices for the volatility and momentum
/// filters, its open lots oldest first, its net inventory, and the times at
/// which the volatility and momentum filters last tripped.
pub struct GptMarketMaker {
    pub symbol: String,
    pub config: GptMarketMakerConfig,
    pub prices: Vec<u128>,
    pub volumes: Vec<u128>,
    pub positions: Vec<Position>,
    pub net_inventory: i128,
    pub avg_entry_price: u64,
    pub price_history: Vec<u64>,
    pub last_high_volatility_time: i64,
    pub momentum_prices: Vec<u64>,
    pub last_strong_momentum_time: i64,
}

impl GptMarketMaker {
    /// Windows stay within their capacity and hold samples of books in
    /// bounds; lots are in bounds and consistent with the net inventory; the
    /// average entry price is that of the lots.
    pub open spec fn wf(&self) -> bool {
        &&& self.config.valid()
        &&& self.prices@.len() == self.volumes@.len()
        &&& self.volumes@.len() <= self.config.vwap_window
        &&& forall|i: int| 0 <= i < self.volumes@.len() ==> #[trigger] self.volumes@[i] <= 2 * MAX_QUANTITY
        &&& forall|i: int| 0 <= i < self.prices@.len() ==> #[trigger] self.prices@[i] <= MAX_PRICE as int * (2 * MAX_QUANTITY)
        &&& self.price_history@.len() <= self.config.volatility_window
        &&& prices_ok(self.price_history@)
        &&& self.momentum_prices@.len() <= self.config.momentum_window
        &&& prices_ok(self.momentum_prices@)
        &&& lots_ok(self.positions@)
        &&& abs(self.net_inventory as int) <= NET_LIMIT
        &&& inventory_consistent(self.positions@, self.net_inventory as int)
        &&& self.avg_entry_price == avg_entry(self.positions@)
    }

    /// A fresh market maker for `symbol`.
    pub fn new(symbol: String, config: GptMarketMakerConfig) -> (r: GptMarketMaker)
        requires
            config.valid(),
        ensures
            r.wf(),
            r.symbol == symbol,
            r.config == config,
            r.is_reset(),
    {
        let r = GptMarketMaker {
            symbol,
            config,
            prices: Vec::new(),
            volumes: Vec::new(),
            positions: Vec::new(),
            net_inventory: 0,
            avg_entry_price: 0,
            price_history: Vec::new(),
            last_high_volatility_time: 0,
            momentum_prices: Vec::new(),
            last_strong_momentum_time: 0,
        };
        proof {
            assert(lots_q(r.positions@) == 0);
        }
        r
    }

    /// Every window, lot, the inventory and both filter times are cleared.
    pub open spec fn is_reset(&self) -> bool {
        &&& self.prices@.len() == 0
        &&& self.volumes@.len() == 0
        &&& self.positions@.len() == 0
        &&& self.net_inventory == 0
        &&& self.avg_entry_price == 0
        &&& self.price_history@.len() == 0
        &&& self.last_high_volatility_time == 0
        &&& self.momentum_prices@.len() == 0
        &&& self.last_strong_momentum_time == 0
    }

    pub fn reset(&mut self)
        requires
            old(self).config.valid(),
        ensures
            final(self).wf(),
            final(self).is_reset(),
            final(self).symbol == old(self).symbol,
            final(self).config == old(self).config,
    {
        self.prices.clear();
        self.volumes.clear();
        self.positions.clear();
        self.net_inventory = 0;
        self.avg_entry_price = 0;
        self.price_history.clear();
        self.last_high_volatility_time = 0;
        self.momentum_prices.clear();
        self.last_strong_momentum_time = 0;
        proof {
            assert(lots_q(self.positions@) == 0);
        }
    }

    pub fn name(&self) -> (r: String)
        ensures
            r@ == "GPT Market Maker"@,
    {
        String::from_str("GPT Market Maker")
    }

    /// Net inventory held in `symbol`: the strategy's own for its symbol,
    /// zero for any other.
    pub fn get_position(&self, symbol: &String) -> (r: i128)
        ensures
            r == if symbol@ == self.symbol@ { self.net_inventory } else { 0 },
    {
        if *symbol == self.symbol {
            self.net_inventory
        } else {
            0
        }
    }

    /// Feedback on a proposal. An unfilled or rejected one changes nothing.
    /// A fill against the inventory closes lots on the held side oldest
    /// first; any other fill opens a lot. The inventory moves by the fill's
    /// signed quantity and the average entry price follows the lots.
    pub fn update_position(&mut self, trade: &Trade, filled: bool)
        requires
            old(self).wf(),
            trade.in_bounds(),
            filled ==> abs(old(self).net_inventory as int) + trade.quantity <= NET_LIMIT,
        ensures
            final(self).wf(),
            final(self).symbol == old(self).symbol,
            final(self).config == old(self).config,
            final(self).prices@ == old(self).prices@,
            final(self).volumes@ == old(self).volumes@,
            final(self).price_history@ == old(self).price_history@,
            final(self).momentum_prices@ == old(self).momentum_prices@,
            final(self).last_high_volatility_time == old(self).last_high_volatility_time,
            final(self).last_strong_momentum_time == old(self).last_strong_momentum_time,
            !filled ==> final(self).positions@ == old(self).positions@
                && final(self).net_inventory == old(self).net_inventory
                && final(self).avg_entry_price == old(self).avg_entry_price,
            filled ==> final(self).positions@ == (if is_closing(old(self).net_inventory as int, trade.side) {
                close_lots(old(self).positions@, held_side(old(self).net_inventory as int), trade.quantity as int)
            } else {
                old(self).positions@.push(Position {
                    quantity: trade.quantity,
                    entry_price: trade.price,
                    entry_time: trade.time,
                    side: trade.side,
                })
            }),
            filled ==> final(self).net_inventory == old(self).net_inventory + signed_qty(trade.side, trade.quantity as int),
            filled ==> final(self).avg_entry_price == avg_entry(final(self).positions@),
    {
        if !filled {
            return;
        }
        let net = self.net_inventory;
        let ghost old_lots = self.positions@;
        proof {
            lemma_lots_q_nonneg(old_lots);
        }
        let closing = (net > 0 && trade.side == Side::Sell) || (net < 0 && trade.side == Side::Buy);
        if closing {
            let held = if net > 0 { Side::Buy } else { Side::Sell };
            proof {
                assert forall|i: int| 0 <= i < old_lots.len() && (#[trigger] old_lots[i]).quantity > 0 implies old_lots[i].side == held by {}
                lemma_close_lots(old_lots, held, trade.quantity as int);
            }
            let mut kept: Vec<Position> = Vec::new();
            let mut rem: u64 = trade.quantity;
            let mut i: usize = 0;
            let n = self.positions.len();
            proof {
                assert(old_lots.subrange(0, n as int) =~= old_lots);
                assert(kept@ + close_lots(old_lots, held, rem as int) =~= close_lots(old_lots, held, rem as int));
            }
            while i < n
                invariant
                    i <= n,
                    n == self.positions@.len(),
                    self.positions@ == old_lots,
                    kept@ + close_lots(old_lots.subrange(i as int, n as int), held, rem as int)
                        == close_lots(old_lots, held, trade.quantity as int),
                decreases n - i,
            {
                let ghost suf = old_lots.subrange(i as int, n as int);
                let l = self.positions[i];
                proof {
                    assert(suf[0] == l);
                    assert(suf.drop_first() =~= old_lots.subrange(i + 1, n as int));
                }
                if rem > 0 && l.side == held {
                    if l.quantity <= rem {
                        rem = rem - l.quantity;
                    } else {
                        let part = Position { quantity: l.quantity - rem, ..l };
                        kept.push(part);
                        proof {
                            let rest = old_lots.subrange(i + 1, n as int);
                            assert(close_lots(rest, held, 0) == rest);
                            assert(kept@ + rest =~= (kept@.drop_last() + (seq![part] + rest)));
                        }
                        rem = 0;
                    }
                } else {
                    kept.push(l);
                    proof {
                        let rest = old_lots.subrange(i + 1, n as int);
                        if rem == 0 {
                            assert(close_lots(suf, held, 0) == suf);
                            assert(close_lots(rest, held, 0) == rest);
                            assert(suf =~= seq![l] + rest);
                        }
                        assert(kept@ + close_lots(rest, held, rem as int) =~= kept@.drop_last() + (seq![l]
                            + close_lots(rest, held, rem as int)));
                    }
                }
                i = i + 1;
            }
            proof {
                assert(old_lots.subrange(n as int, n as int) =~= Seq::<Position>::empty());
                assert(kept@ + Seq::<Position>::empty() =~= kept@);
            }
            self.positions = kept;
        } else {
            self.positions.push(Position {
                quantity: trade.quantity,
                entry_price: trade.price,
                entry_time: trade.time,
                side: trade.side,
            });
            proof {
                lemma_lots_push(old_lots, Position {
                    quantity: trade.quantity,
                    entry_price: trade.price,
                    entry_time: trade.time,
                    side: trade.side,
                });
            }
        }
        if trade.side == Side::Buy {
            self.net_inventory = net + trade.quantity as i128;
        } else {
            self.net_inventory = net - trade.quantity as i128;
        }
        proof {
            let lots = self.positions@;
            let nn = self.net_inventory as int;
            lemma_lots_q_nonneg(lots);
            assert(lots_ok(lots)) by {
                if !closing {
                    assert forall|i: int| 0 <= i < lots.len() implies (#[trigger] lots[i]).quantity <= MAX_QUANTITY
                        && lots[i].entry_price <= MAX_PRICE by {
                        if i < old_lots.len() {
                            assert(lots[i] == old_lots[i]);
                        }
                    }
                }
            }
            assert forall|i: int| 0 <= i < lots.len() && (#[trigger] lots[i]).quantity > 0 implies ((lots[i].side == Side::Buy
                && nn > 0) || (lots[i].side == Side::Sell && nn < 0)) by {
                lemma_lot_le_total(lots, i);
                if !closing && i < old_lots.len() {
                    assert(lots[i] == old_lots[i]);
                    lemma_lot_le_total(old_lots, i);
                }
            }
        }
        self.avg_entry_price = lots_avg(&self.positions);
    }
}

/// Sums of the VWAP windows.
fn window_sums(pv: &Vec<u128>, v: &Vec<u128>) -> (r: (u128, u128))
    requires
        pv@.len() == v@.len(),
        v@.len() <= MAX_WINDOW,
        forall|i: int| 0 <= i < v@.len() ==> #[trigger] v@[i] <= 2 * MAX_QUANTITY,
        forall|i: int| 0 <= i < pv@.len() ==> #[trigger] pv@[i] <= MAX_PRICE as int * (2 * MAX_QUANTITY),
    ensures
        r.0 == seq_sum(pv@),
        r.1 == seq_sum(v@),
        r.0 <= MAX_WINDOW * (MAX_PRICE as int * (2 * MAX_QUANTITY)),
        r.1 <= MAX_WINDOW * (2 * MAX_QUANTITY),
{
    let mut a: u128 = 0;
    let mut b: u128 = 0;
    let mut i: usize = 0;
    while i < v.len()
        invariant
            i <= v@.len(),
            pv@.len() == v@.len(),
            v@.len() <= MAX_WINDOW,
            forall|j: int| 0 <= j < v@.len() ==> #[trigger] v@[j] <= 2 * MAX_QUANTITY,
            forall|j: int| 0 <= j < pv@.len() ==> #[trigger] pv@[j] <= MAX_PRICE as int * (2 * MAX_QUANTITY),
            a == seq_sum(pv@.subrange(0, i as int)),
            b == seq_sum(v@.subrange(0, i as int)),
            a <= i * (MAX_PRICE as int * (2 * MAX_QUANTITY)),
            b <= i * (2 * MAX_QUANTITY),
        decreases v@.len() - i,
    {
        proof {
            assert(pv@.subrange(0, i + 1).drop_last() =~= pv@.subrange(0, i as int));
            assert(v@.subrange(0, i + 1).drop_last() =~= v@.subrange(0, i as int));
            assert(pv@.subrange(0, i + 1).last() == pv@[i as int]);
            assert(v@.subrange(0, i + 1).last() == v@[i as int]);
            let k1 = MAX_PRICE as int * (2 * MAX_QUANTITY);
            let k2 = 2 * MAX_QUANTITY as int;
            assert((i + 1) * k1 == i * k1 + k1 && i * k1 <= MAX_WINDOW * k1) by (nonlinear_arith)
                requires
                    i < MAX_WINDOW,
                    k1 >= 0,
            {
            }
            assert((i + 1) * k2 == i * k2 + k2 && i * k2 <= MAX_WINDOW * k2) by (nonlinear_arith)
                requires
                    i < MAX_WINDOW,
                    k2 >= 0,
            {
            }
        }
        a = a + pv[i];
        b = b + v[i];
        i = i + 1;
    }
    proof {
        assert(pv@.subrange(0, i as int) =~= pv@);
        assert(v@.subrange(0, i as int) =~= v@);
        let k1 = MAX_PRICE as int * (2 * MAX_QUANTITY);
        let k2 = 2 * MAX_QUANTITY as int;
        assert(i * k1 <= MAX_WINDOW * k1 && i * k2 <= MAX_WINDOW * k2) by (nonlinear_arith)
            requires
                i <= MAX_WINDOW,
                k1 >= 0,
                k2 >= 0,
        {
        }
    }
    (a, b)
}

impl GptMarketMaker {
    /// The entry filter at `now` (see `gate`), restarting a cooldown on a breach.
    pub fn check_market_conditions(&mut self, now: i64) -> (r: bool)
        requires
            old(self).wf(),
        ensures
            (r, final(self).last_high_volatility_time, final(self).last_strong_momentum_time) == gate(
                old(self).config,
                old(self).price_history@,
                old(self).momentum_prices@,
                old(self).last_high_volatility_time,
                old(self).last_strong_momentum_time,
                now,
            ),
            final(self).symbol == old(self).symbol,
            final(self).config == old(self).config,
            final(self).prices@ == old(self).prices@,
            final(self).volumes@ == old(self).volumes@,
            final(self).positions@ == old(self).positions@,
            final(self).net_inventory == old(self).net_inventory,
            final(self).avg_entry_price == old(self).avg_entry_price,
            final(self).price_history@ == old(self).price_history@,
            final(self).momentum_prices@ == old(self).momentum_prices@,
    {
        if (now as i128) - (self.last_high_volatility_time as i128) < self.config.volatility_cooldown_ms as i128 {
            return false;
        }
        if (now as i128) - (self.last_strong_momentum_time as i128) < self.config.momentum_cooldown_ms as i128 {
            return false;
        }
        if volatility_exceeds(&self.price_history, self.config.max_volatility_threshold) {
            self.last_high_volatility_time = now;
            return false;
        }
        if momentum_exceeds(&self.momentum_prices, self.config.momentum_threshold) {
            self.last_strong_momentum_time = now;
            return false;
        }
        true
    }

    /// Whether the exit rule fires (see `close_signal`).
    fn should_close_position(&self, mid: u64, now: i64) -> (r: bool)
        requires
            self.wf(),
            mid <= MAX_PRICE,
        ensures
            r == close_signal(self.config, self.positions@, self.net_inventory as int, mid as int, now as int),
    {
        if self.net_inventory == 0 {
            return false;
        }
        proof {
            lemma_avg_entry_bound(self.positions@);
            lemma_lots_q_nonneg(self.positions@);
        }
        let (w, age) = lots_weighted_age(&self.positions, mid, now);
        let cfg = &self.config;
        let net = self.net_inventory;
        let anet: i128 = if net < 0 { -net } else { net };
        proof {
            let qq = lots_q(self.positions@);
            assert(lot_ret_bound() * qq <= lot_ret_bound() * NET_LIMIT) by (nonlinear_arith)
                requires
                    qq <= NET_LIMIT,
                    lot_ret_bound() >= 0,
            {
            }
            assert(0 <= (cfg.take_profit_bps as int) * 100 * anet <= 0x1_0000_0000 * 100 * NET_LIMIT) by (nonlinear_arith)
                requires
                    cfg.take_profit_bps <= 0x1_0000_0000,
                    0 <= anet <= NET_LIMIT,
            {
            }
            assert(0 <= (cfg.stop_loss_bps as int) * 100 * anet <= 0x1_0000_0000 * 100 * NET_LIMIT) by (nonlinear_arith)
                requires
                    cfg.stop_loss_bps <= 0x1_0000_0000,
                    0 <= anet <= NET_LIMIT,
            {
            }
            assert(0 <= (cfg.min_profit_bps as int) * 100 * anet <= 0x1_0000_0000 * 100 * NET_LIMIT) by (nonlinear_arith)
                requires
                    cfg.min_profit_bps <= 0x1_0000_0000,
                    0 <= anet <= NET_LIMIT,
            {
            }
            assert(0 <= anet * PPM <= NET_LIMIT * PPM) by (nonlinear_arith)
                requires
                    0 <= anet <= NET_LIMIT,
            {
            }
            assert(0 <= (cfg.inventory_reduction_threshold as int) * (cfg.max_inventory as int) <= 0x100_0000 * 0x100_0000_0000) by (nonlinear_arith)
                requires
                    cfg.inventory_reduction_threshold <= 0x100_0000,
                    cfg.max_inventory <= 0x100_0000_0000,
            {
            }
            assert(0 <= (cfg.aggressive_close_threshold as int) * (cfg.max_inventory as int) <= 0x100_0000 * 0x100_0000_0000) by (nonlinear_arith)
                requires
                    cfg.aggressive_close_threshold <= 0x100_0000,
                    cfg.max_inventory <= 0x100_0000_0000,
            {
            }
        }
        let tp = cfg.take_profit_bps as i128;
        let sl = cfg.stop_loss_bps as i128;
        let mp = cfg.min_profit_bps as i128;
        let m = cfg.max_inventory as i128;
        let ge_tp = w >= tp * 100 * anet;
        let le_sl = w <= -(sl * 100 * anet);
        let ge_mp = w >= mp * 100 * anet;
        let ge_neg_mp = w >= -(mp * 100 * anet);
        let red = anet * PPM >= cfg.inventory_reduction_threshold as i128 * m;
        let agg = anet * PPM >= cfg.aggressive_close_threshold as i128 * m;
        proof {
            assert(-(sl as int) * 100 * anet == -(sl * 100 * anet)) by (nonlinear_arith);
            assert(-(mp as int) * 100 * anet == -(mp * 100 * anet)) by (nonlinear_arith);
        }
        ge_tp || le_sl || age > cfg.max_position_age_ms as i128 || (red && ge_mp) || (agg && ge_neg_mp)
    }
}

impl GptMarketMaker {
    /// At most one proposal for the book (see `decide`). A book with an empty
    /// side changes nothing and gives none.
    pub fn propose_trade(&mut self, book: &OrderBook) -> (r: Option<Trade>)
        requires
            old(self).wf(),
            book.in_bounds(),
        ensures
            final(self).wf(),
            final(self).symbol == old(self).symbol,
            final(self).config == old(self).config,
            final(self).positions@ == old(self).positions@,
            final(self).net_inventory == old(self).net_inventory,
            final(self).avg_entry_price == old(self).avg_entry_price,
            r is Some ==> r->Some_0.in_bounds(),
            book.bids@.len() == 0 || book.asks@.len() == 0 ==> r is None && *final(self) == *old(self),
            book.bids@.len() > 0 && book.asks@.len() > 0 ==> {
                let d = decide(*old(self), *book);
                let mid = mid_of(book.bids@, book.asks@);
                let vol = book.bids@[0].1 + book.asks@[0].1;
                &&& final(self).price_history@ == push_window(old(self).price_history@, mid as u64, old(self).config.volatility_window as int)
                &&& final(self).momentum_prices@ == push_window(old(self).momentum_prices@, mid as u64, old(self).config.momentum_window as int)
                &&& final(self).prices@ == push_window(old(self).prices@, (mid * vol) as u128, old(self).config.vwap_window as int)
                &&& final(self).volumes@ == push_window(old(self).volumes@, vol as u128, old(self).config.vwap_window as int)
                &&& final(self).last_high_volatility_time == d.1
                &&& final(self).last_strong_momentum_time == d.2
                &&& match d.0 {
                    None => r is None,
                    Some(p) => r is Some && r->Some_0.side == p.0 && r->Some_0.price == p.1
                        && r->Some_0.quantity == p.2 && r->Some_0.symbol == old(self).symbol
                        && r->Some_0.time == book.current_time && r->Some_0.status == TradeStatus::Pending,
                }
            },
    {
        if book.bids.len() == 0 || book.asks.len() == 0 {
            return None;
        }
        let ghost s0 = *self;
        let best_bid = book.bids[0].0;
        let bid_vol = book.bids[0].1;
        let best_ask = book.asks[0].0;
        let ask_vol = book.asks[0].1;
        let mid: u64 = (best_bid + best_ask) / 2;
        let now = book.current_time;
        let vol: u128 = bid_vol as u128 + ask_vol as u128;
        proof {
            assert(book.bids@[0].0 <= MAX_PRICE && book.bids@[0].1 <= MAX_QUANTITY);
            assert(book.asks@[0].0 <= MAX_PRICE && book.asks@[0].1 <= MAX_QUANTITY);
            assert(mid as int * vol <= MAX_PRICE as int * (2 * MAX_QUANTITY)) by (nonlinear_arith)
                requires
                    mid <= MAX_PRICE,
                    vol <= 2 * MAX_QUANTITY,
            {
            }
        }
        push_window_exec(&mut self.price_history, mid, self.config.volatility_window);
        push_window_exec(&mut self.momentum_prices, mid, self.config.momentum_window);
        push_window_exec(&mut self.prices, mid as u128 * vol, self.config.vwap_window);
        push_window_exec(&mut self.volumes, vol, self.config.vwap_window);
        proof {
            let ph = self.price_history@;
            let mp = self.momentum_prices@;
            assert(prices_ok(ph)) by {
                assert forall|i: int| 0 <= i < ph.len() implies #[trigger] ph[i] <= MAX_PRICE by {
                    let w = s0.price_history@.push(mid);
                    if ph.len() == w.len() {
                        if i < s0.price_history@.len() { assert(ph[i] == s0.price_history@[i]); }
                    } else {
                        assert(ph[i] == w[i + 1]);
                        if i + 1 < s0.price_history@.len() { assert(w[i + 1] == s0.price_history@[i + 1]); }
                    }
                }
            }
            assert(prices_ok(mp)) by {
                assert forall|i: int| 0 <= i < mp.len() implies #[trigger] mp[i] <= MAX_PRICE by {
                    let w = s0.momentum_prices@.push(mid);
                    if mp.len() == w.len() {
                        if i < s0.momentum_prices@.len() { assert(mp[i] == s0.momentum_prices@[i]); }
                    } else {
                        assert(mp[i] == w[i + 1]);
                        if i + 1 < s0.momentum_prices@.len() { assert(w[i + 1] == s0.momentum_prices@[i + 1]); }
                    }
                }
            }
            let pv = self.prices@;
            let v = self.volumes@;
            assert forall|i: int| 0 <= i < v.len() implies #[trigger] v[i] <= 2 * MAX_QUANTITY by {
                let w = s0.volumes@.push(vol);
                if v.len() == w.len() {
                    if i < s0.volumes@.len() { assert(v[i] == s0.volumes@[i]); }
                } else {
                    assert(v[i] == w[i + 1]);
                    if i + 1 < s0.volumes@.len() { assert(w[i + 1] == s0.volumes@[i + 1]); }
                }
            }
            assert forall|i: int| 0 <= i < pv.len() implies #[trigger] pv[i] <= MAX_PRICE as int * (2 * MAX_QUANTITY) by {
                let w = s0.prices@.push((mid * vol) as u128);
                if pv.len() == w.len() {
                    if i < s0.prices@.len() { assert(pv[i] == s0.prices@[i]); }
                } else {
                    assert(pv[i] == w[i + 1]);
                    if i + 1 < s0.prices@.len() { assert(w[i + 1] == s0.prices@[i + 1]); }
                }
            }
            assert(self.wf());
        }
        if self.volumes.len() < self.config.vwap_window {
            return None;
        }
        let (spv, sv) = window_sums(&self.prices, &self.volumes);
        if sv == 0 {
            return None;
        }
        let can_trade = self.check_market_conditions(now);
        let close = self.should_close_position(mid, now);
        let net = self.net_inventory;
        let anet: i128 = if net < 0 { -net } else { net };
        if close {
            let qty: u64 = if (self.config.fix_order_volume as i128) < anet {
                self.config.fix_order_volume
            } else {
                anet as u64
            };
            let avg = self.avg_entry_price as u128;
            let mpb = self.config.min_profit_bps as u128;
            proof {
                lemma_avg_entry_bound(self.positions@);
                assert(avg * (10000 + mpb) <= MAX_PRICE as int * 20000) by (nonlinear_arith)
                    requires
                        avg <= MAX_PRICE,
                        mpb <= 10000,
                {
                }
                assert(avg * (10000 - mpb) <= avg * 10000) by (nonlinear_arith)
                    requires
                        mpb <= 10000,
                {
                }
                vstd::arithmetic::div_mod::lemma_div_is_ordered(avg * (10000 - mpb), avg * 10000, 10000);
                vstd::arithmetic::div_mod::lemma_div_multiples_vanish(avg as int, 10000);
                assert(avg * 10000 == 10000 * avg) by (nonlinear_arith);
                assert(avg * (10000 - mpb) >= 0) by (nonlinear_arith)
                    requires
                        mpb <= 10000,
                {
                }
            }
            let (side, price) = if net > 0 {
                if self.config.use_limit_orders {
                    let raised = avg * (10000 + mpb) / 10000;
                    let p = if best_bid as u128 > raised { best_bid as u128 } else { raised };
                    (Side::Sell, if p > MAX_PRICE as u128 { MAX_PRICE } else { p as u64 })
                } else {
                    (Side::Sell, best_bid)
                }
            } else {
                if self.config.use_limit_orders {
                    let lowered = avg * (10000 - mpb) / 10000;
                    (Side::Buy, if (best_ask as u128) < lowered { best_ask } else { lowered as u64 })
                } else {
                    (Side::Buy, best_ask)
                }
            };
            return Some(Trade::new(now, self.symbol.clone(), side, price, qty));
        }
        if !can_trade {
            return None;
        }
        let b = top_volume(&book.bids);
        let a = top_volume(&book.asks);
        let m = self.config.max_inventory as i128;
        let t = self.config.obi_threshold as i128;
        proof {
            assert(0 <= m * self.config.inventory_reduction_threshold <= 0x100_0000_0000 * 0x100_0000) by (nonlinear_arith)
                requires
                    1 <= m <= 0x100_0000_0000,
                    self.config.inventory_reduction_threshold <= 0x100_0000,
            {
            }
            assert(0 <= t * (m + anet) <= 0x100_0000 * (0x100_0000_0000 + NET_LIMIT)) by (nonlinear_arith)
                requires
                    0 <= t <= 0x100_0000,
                    1 <= m <= 0x100_0000_0000,
                    0 <= anet <= NET_LIMIT,
            {
            }
        }
        let lvl = m * self.config.inventory_reduction_threshold as i128;
        proof {
            assert(0 <= t * (m + anet) * (b + a) <= 0x100_0000 * (0x100_0000_0000 + NET_LIMIT) * (10 * MAX_QUANTITY as int)) by (nonlinear_arith)
                requires
                    0 <= t <= 0x100_0000,
                    1 <= m <= 0x100_0000_0000,
                    0 <= anet <= NET_LIMIT,
                    0 <= b + a <= 10 * MAX_QUANTITY,
            {
            }
            assert(-(10 * MAX_QUANTITY as int) * PPM * 0x100_0000_0000 <= (b - a) * PPM * m <= (10 * MAX_QUANTITY as int) * PPM * 0x100_0000_0000) by (nonlinear_arith)
                requires
                    1 <= m <= 0x100_0000_0000,
                    0 <= b <= 5 * MAX_QUANTITY,
                    0 <= a <= 5 * MAX_QUANTITY,
            {
            }
            assert(0 <= lvl <= 0x100_0000_0000 * 0x100_0000) by (nonlinear_arith)
                requires
                    lvl == m * self.config.inventory_reduction_threshold,
                    1 <= m <= 0x100_0000_0000,
                    self.config.inventory_reduction_threshold <= 0x100_0000,
            {
            }
            assert(-NET_LIMIT * PPM <= net * PPM <= NET_LIMIT * PPM) by (nonlinear_arith)
                requires
                    -NET_LIMIT <= net <= NET_LIMIT,
            {
            }
            assert(mid as int * sv <= MAX_PRICE as int * (MAX_WINDOW * (2 * MAX_QUANTITY))) by (nonlinear_arith)
                requires
                    mid <= MAX_PRICE,
                    sv <= MAX_WINDOW * (2 * MAX_QUANTITY),
            {
            }
        }
        let imb = (b as i128 - a as i128) * PPM * m;
        let adj = t * (m + anet) * (b + a) as i128;
        let below_vwap = (mid as u128) * sv < spv;
        let above_vwap = (mid as u128) * sv > spv;
        let spread = self.config.limit_order_spread_bps as u128;
        if imb > adj && below_vwap && net * PPM < lvl {
            let price = if self.config.use_limit_orders {
                proof {
                    assert(best_bid as int * (10000 - spread) <= best_bid as int * 10000) by (nonlinear_arith)
                        requires
                            spread <= 10000,
                    {
                    }
                    vstd::arithmetic::div_mod::lemma_div_is_ordered(best_bid as int * (10000 - spread), best_bid as int * 10000, 10000);
                    vstd::arithmetic::div_mod::lemma_div_multiples_vanish(best_bid as int, 10000);
                    assert(best_bid as int * 10000 == 10000 * best_bid as int) by (nonlinear_arith);
                    assert(best_bid as int * (10000 - spread) >= 0) by (nonlinear_arith)
                        requires
                            spread <= 10000,
                    {
                    }
                }
                (best_bid as u128 * (10000 - spread) / 10000) as u64
            } else {
                best_ask
            };
            return Some(Trade::new(now, self.symbol.clone(), Side::Buy, price, self.config.fix_order_volume));
        } else if imb < -adj && above_vwap && net * PPM > -lvl {
            let price = if self.config.use_limit_orders {
                proof {
                    assert(best_ask as int * (10000 + spread) <= MAX_PRICE as int * 20000) by (nonlinear_arith)
                        requires
                            best_ask <= MAX_PRICE,
                            spread <= 10000,
                    {
                    }
                }
                let raised = best_ask as u128 * (10000 + spread) / 10000;
                if raised > MAX_PRICE as u128 { MAX_PRICE } else { raised as u64 }
            } else {
                best_bid
            };
            return Some(Trade::new(now, self.symbol.clone(), Side::Sell, price, self.config.fix_order_volume));
        }
        None
    }
}

/// Inside the volatility cooldown the market maker opens nothing, however
/// favourable the book: anything it proposes is an exit, and the cooldown's
/// start stays where it was.
pub proof fn lemma_volatility_cooldown(s: GptMarketMaker, book: OrderBook)
    requires
        book.bids@.len() > 0,
        book.asks@.len() > 0,
        book.current_time - s.last_high_volatility_time < s.config.volatility_cooldown_ms,
    ensures
        decide(s, book).0 is Some ==> close_signal(
            s.config,
            s.positions@,
            s.net_inventory as int,
            mid_of(book.bids@, book.asks@),
            book.current_time as int,
        ),
        decide(s, book).1 == s.last_high_volatility_time,
{
}

/// A volatility breach, outside both cooldowns and with a full VWAP window,
/// restarts the volatility cooldown at the book's time and opens nothing.
pub proof fn lemma_volatility_breach(s: GptMarketMaker, book: OrderBook)
    requires
        book.bids@.len() > 0,
        book.asks@.len() > 0,
        book.current_time - s.last_high_volatility_time >= s.config.volatility_cooldown_ms,
        book.current_time - s.last_strong_momentum_time >= s.config.momentum_cooldown_ms,
        ({
            let mid = mid_of(book.bids@, book.asks@);
            let vol = book.bids@[0].1 + book.asks@[0].1;
            let v = push_window(s.volumes@, vol as u128, s.config.vwap_window as int);
            &&& v.len() >= s.config.vwap_window
            &&& seq_sum(v) != 0
            &&& volatility_breach(
                push_window(s.price_history@, mid as u64, s.config.volatility_window as int),
                s.config.max_volatility_threshold as int,
            )
        }),
    ensures
        decide(s, book).1 == book.current_time,
        decide(s, book).0 is Some ==> close_signal(
            s.config,
            s.positions@,
            s.net_inventory as int,
            mid_of(book.bids@, book.asks@),
            book.current_time as int,
        ),
{
}

} // verus!
