use vstd::prelude::*;

verus! {

/// Largest price, in ticks, that the library accepts. With a tick of
/// 10^-d the largest price is 2^31 · 10^-d: about 21 million at two
/// decimals, 21 thousand at five; books quoted beyond that are refused as
/// `InvalidOrderBook`, so pick the coarsest tick the market allows.
pub const MAX_PRICE: u64 = 2147483648;

/// Largest quantity, in lots, that the library accepts (2^31 lots, as for
/// prices).
pub const MAX_QUANTITY: u64 = 2147483648;

/// Side of an order.
#[derive(Clone, Copy, Debug, PartialEq, Eq, Structural)]
pub enum Side {
    Buy,
    Sell,
}

impl Side {
    /// The other side.
    pub fn opposite(self) -> (r: Side)
        ensures
            r != self,
    {
        match self {
            Side::Buy => Side::Sell,
            Side::Sell => Side::Buy,
        }
    }
}

/// Life cycle of a trade: it starts `Pending` and ends in one of the others.
#[derive(Clone, Copy, Debug, PartialEq, Eq, Structural)]
pub enum TradeStatus {
    Pending,
    Filled,
    Rejected,
    Unfilled,
}

/// A trade proposal, and after execution the trade itself.
#[derive(Clone, Debug)]
pub struct Trade {
    pub time: i64,
    pub symbol: String,
    pub side: Side,
    pub price: u64,
    pub quantity: u64,
    pub status: TradeStatus,
    pub id: String,
}

/// Signed quantity of a trade: positive for a buy, negative for a sell.
pub open spec fn signed_qty(side: Side, quantity: int) -> int {
    match side {
        Side::Buy => quantity,
        Side::Sell => -quantity,
    }
}

/// Relies on uuid's `Uuid::new_v4` and its `Display`: a fresh random
/// identifier, of which nothing further is assumed.
#[verifier::external_body]
fn new_trade_id() -> (r: String) {
    uuid::Uuid::new_v4().to_string()
}

impl Trade {
    /// A pending trade with a fresh random id.
    pub fn new(time: i64, symbol: String, side: Side, price: u64, quantity: u64) -> (r: Trade)
        ensures
            r.time == time,
            r.symbol == symbol,
            r.side == side,
            r.price == price,
            r.quantity == quantity,
            r.status == TradeStatus::Pending,
    {
        Trade { time, symbol, side, price, quantity, status: TradeStatus::Pending, id: new_trade_id() }
    }

    /// Price and quantity lie within the bounds the library accepts.
    pub open spec fn in_bounds(&self) -> bool {
        self.price <= MAX_PRICE && self.quantity <= MAX_QUANTITY
    }

    /// A field-by-field copy.
    pub fn duplicate(&self) -> (r: Trade)
        ensures
            r == *self,
    {
        Trade {
            time: self.time,
            symbol: self.symbol.clone(),
            side: self.side,
            price: self.price,
            quantity: self.quantity,
            status: self.status,
            id: self.id.clone(),
        }
    }
}

/// Every trade of the sequence lies within the accepted bounds.
pub open spec fn all_in_bounds(trades: Seq<Trade>) -> bool {
    forall|i: int| 0 <= i < trades.len() ==> (#[trigger] trades[i]).in_bounds()
}

/// One match of a closing trade against open inventory.
#[derive(Clone, Copy, Debug, PartialEq, Eq, Structural)]
pub struct ClosedTrade {
    pub open_side: Side,
    pub quantity: u64,
    pub open_price: u64,
    pub close_side: Side,
    pub close_price: u64,
    pub pnl: i128,
}

/// Sum of the realized pnl of a sequence of closed trades.
pub open spec fn sum_pnl(closed: Seq<ClosedTrade>) -> int
    decreases closed.len(),
{
    if closed.len() == 0 {
        0
    } else {
        sum_pnl(closed.drop_last()) + closed.last().pnl
    }
}

/// Bound on the pnl of one match.
pub open spec fn pnl_bound() -> int {
    4611686018427387904
}

/// Closed trades whose pnl lies within the bound of one match.
pub open spec fn closed_ok(closed: Seq<ClosedTrade>) -> bool {
    forall|i: int| 0 <= i < closed.len() ==> -pnl_bound() <= (#[trigger] closed[i]).pnl <= pnl_bound()
}

/// Total realized pnl of a sequence of closed trades.
pub fn sum_closed(closed: &Vec<ClosedTrade>) -> (r: i128)
    requires
        closed_ok(closed@),
    ensures
        r == sum_pnl(closed@),
{
    let mut acc: i128 = 0;
    let mut i: usize = 0;
    while i < closed.len()
        invariant
            i <= closed@.len(),
            closed_ok(closed@),
            acc == sum_pnl(closed@.subrange(0, i as int)),
            -pnl_bound() * i <= acc <= pnl_bound() * i,
            pnl_bound() == 4611686018427387904,
        decreases closed@.len() - i,
    {
        proof {
            assert(closed@.subrange(0, i + 1).drop_last() =~= closed@.subrange(0, i as int));
            assert(closed@[i as int] == closed@.subrange(0, i + 1).last());
        }
        let p = closed[i].pnl;
        assert(-pnl_bound() <= p <= pnl_bound());
        assert(i < 0x1_0000_0000_0000_0000);
        assert(-pnl_bound() * (i + 1) <= acc + p <= pnl_bound() * (i + 1)) by (nonlinear_arith)
            requires
                -pnl_bound() * i <= acc <= pnl_bound() * i,
            pnl_bound() == 4611686018427387904,
                -pnl_bound() <= p <= pnl_bound(),
        {
        }
        assert(pnl_bound() * (i + 1) <= pnl_bound() * 0x1_0000_0000_0000_0000) by (nonlinear_arith)
            requires
                i < 0x1_0000_0000_0000_0000,
        {
        }
        acc = acc + p;
        i = i + 1;
    }
    proof {
        assert(closed@.subrange(0, i as int) =~= closed@);
    }
    acc
}

/// Whether every trade lies within the accepted bounds.
pub fn all_trades_in_bounds(trades: &[Trade]) -> (r: bool)
    ensures
        r == all_in_bounds(trades@),
{
    let mut i: usize = 0;
    while i < trades.len()
        invariant
            i <= trades@.len(),
            forall|j: int| 0 <= j < i ==> (#[trigger] trades@[j]).in_bounds(),
        decreases trades@.len() - i,
    {
        if trades[i].price > MAX_PRICE || trades[i].quantity > MAX_QUANTITY {
            assert(!trades@[i as int].in_bounds());
            return false;
        }
        i = i + 1;
    }
    true
}

/// Result of one accounting run.
#[derive(Debug)]
pub struct PnLResult {
    pub total_pnl: i128,
    pub unrealized_pnl: i128,
    pub closed_trades: Vec<ClosedTrade>,
    pub total_fees: i128,
    pub remaining_shares: i128,
}

/// Errors of the library.
#[derive(Debug)]
pub enum TradeError {
    TradeNotFound(String),
    InvalidOrderBook(String),
    PositionLimitExceeded { symbol: String, current: i128, limit: i128 },
    InsufficientMargin { required: i128, available: i128 },
    InvalidTradeParameters(String),
    OrderExecutionFailed(String),
    StrategyError(String),
    DataLoadingError(String),
}

/// Counters kept by the execution simulator. Counts saturate at `u64::MAX`.
#[derive(Clone, Copy, Debug, PartialEq, Eq, Structural)]
pub struct ExecutionStats {
    pub total_trades: u64,
    pub filled_trades: u64,
    pub rejected_trades: u64,
    pub partial_fills: u64,
    /// Sum of the price moves due to slippage, in ticks; saturates.
    pub total_slippage: u64,
}

/// All counters at zero.
pub open spec fn zero_stats() -> ExecutionStats {
    ExecutionStats { total_trades: 0, filled_trades: 0, rejected_trades: 0, partial_fills: 0, total_slippage: 0 }
}

impl ExecutionStats {
    pub fn new() -> (r: ExecutionStats)
        ensures
            r == zero_stats(),
    {
        ExecutionStats { total_trades: 0, filled_trades: 0, rejected_trades: 0, partial_fills: 0, total_slippage: 0 }
    }
}

} // verus!
