//! Realized pnl against an average cost per symbol.
use vstd::prelude::*;
use crate::models::{
    ClosedTrade, PnLResult, Side, Trade, MAX_PRICE, MAX_QUANTITY, all_in_bounds, closed_ok,
    pnl_bound, signed_qty, sum_closed, sum_pnl,
};
use crate::pnl::book::{
    find_symbol, last_price, lemma_last_price_bound, lemma_sum_over_frame,
    lemma_sum_over_prefix, lemma_symbols_distinct, sum_over, symbols_of,
};

verus! {

/// Aggregated position of one symbol: signed quantity (long positive), average
/// entry price, and cost of what is open.
#[derive(Clone, Copy, Debug, PartialEq, Eq, Structural)]
pub struct PositionInfo {
    pub quantity: i128,
    pub avg_price: u64,
    pub total_cost: u128,
}

pub open spec fn abs(x: int) -> int {
    if x < 0 { -x } else { x }
}

/// The flat position.
pub open spec fn flat() -> PositionInfo {
    PositionInfo { quantity: 0, avg_price: 0, total_cost: 0 }
}

/// Applies one trade to the position of its symbol. A trade on a flat
/// position opens one at its price; one in the direction of the position
/// adds to it at the weighted average cost; one against it realizes pnl on
/// the matched quantity against its share of the position's total cost
/// (rounded down), the rest of the cost staying with what remains open;
/// any excess opens a position on the trade's side at its price.
pub open spec fn pos_apply(p: PositionInfo, t: Trade) -> (PositionInfo, Seq<ClosedTrade>) {
    let q = t.quantity as int;
    let price = t.price as int;
    if p.quantity == 0 {
        (PositionInfo {
            quantity: signed_qty(t.side, q) as i128,
            avg_price: t.price,
            total_cost: (price * q) as u128,
        }, seq![])
    } else if (p.quantity > 0 && t.side == Side::Buy) || (p.quantity < 0 && t.side == Side::Sell) {
        let nq = p.quantity + signed_qty(t.side, q);
        let cost = p.total_cost + price * q;
        (PositionInfo {
            quantity: nq as i128,
            avg_price: (cost / abs(nq)) as u64,
            total_cost: cost as u128,
        }, seq![])
    } else {
        let held = abs(p.quantity as int);
        let m = if q <= held { q } else { held };
        let long = p.quantity > 0;
        let mc = p.total_cost * m / held;
        let pnl = if long { price * m - mc } else { mc - price * m };
        let ct = ClosedTrade {
            open_side: if long { Side::Buy } else { Side::Sell },
            quantity: m as u64,
            open_price: p.avg_price,
            close_side: if long { Side::Sell } else { Side::Buy },
            close_price: t.price,
            pnl: pnl as i128,
        };
        let left = if long { p.quantity - m } else { p.quantity + m };
        let rem = q - m;
        let next = if rem > 0 {
            PositionInfo {
                quantity: signed_qty(t.side, rem) as i128,
                avg_price: t.price,
                total_cost: (price * rem) as u128,
            }
        } else if left != 0 {
            PositionInfo {
                quantity: left as i128,
                avg_price: ((p.total_cost - mc) / abs(left)) as u64,
                total_cost: (p.total_cost - mc) as u128,
            }
        } else {
            flat()
        };
        (next, seq![ct])
    }
}

/// Position of `sym` after the trades.
pub open spec fn pos_after(trades: Seq<Trade>, sym: Seq<char>) -> PositionInfo
    decreases trades.len(),
{
    if trades.len() == 0 {
        flat()
    } else {
        let prev = pos_after(trades.drop_last(), sym);
        if trades.last().symbol@ == sym {
            pos_apply(prev, trades.last()).0
        } else {
            prev
        }
    }
}

/// Every closing record made over the trades, in trade order.
pub open spec fn pos_closed(trades: Seq<Trade>) -> Seq<ClosedTrade>
    decreases trades.len(),
{
    if trades.len() == 0 {
        seq![]
    } else {
        let t = trades.last();
        pos_closed(trades.drop_last()) + pos_apply(pos_after(trades.drop_last(), t.symbol@), t).1
    }
}

/// Unrealized pnl of a position marked at `mark`.
pub open spec fn pos_value(p: PositionInfo, mark: int) -> int {
    if p.quantity > 0 {
        (mark - p.avg_price) * p.quantity
    } else if p.quantity < 0 {
        (p.avg_price - mark) * abs(p.quantity as int)
    } else {
        0
    }
}

/// Unrealized pnl of every open position after the trades, each marked at
/// the last trade price of its symbol.
pub open spec fn pos_unrealized(trades: Seq<Trade>) -> int {
    sum_over(symbols_of(trades), value_fn(trades))
}

pub open spec fn value_fn(trades: Seq<Trade>) -> spec_fn(Seq<char>) -> int {
    |s: Seq<char>| pos_value(pos_after(trades, s), last_price(trades, s))
}

pub open spec fn qty_fn(trades: Seq<Trade>) -> spec_fn(Seq<char>) -> int {
    |s: Seq<char>| pos_after(trades, s).quantity as int
}

pub open spec fn size_fn(trades: Seq<Trade>) -> spec_fn(Seq<char>) -> int {
    |s: Seq<char>| abs(pos_after(trades, s).quantity as int)
}

/// Signed open quantity of all symbols after the trades.
pub open spec fn pos_remaining(trades: Seq<Trade>) -> int {
    sum_over(symbols_of(trades), qty_fn(trades))
}

/// Total absolute open quantity after the trades.
pub open spec fn pos_size(trades: Seq<Trade>) -> int {
    sum_over(symbols_of(trades), size_fn(trades))
}

/// A position whose average lies within the price bound and whose cost is
/// at most the top price times its size.
pub open spec fn pos_ok(p: PositionInfo) -> bool {
    &&& p.avg_price <= MAX_PRICE
    &&& p.total_cost <= MAX_PRICE as int * abs(p.quantity as int)
    &&& abs(p.quantity as int) <= 0x1_0000_0000_0000_0000 * MAX_QUANTITY as int
}

/// The cost share of `m` out of `h` held at total cost `c` (at most `M`
/// a unit) lies within `m` units' worth, leaves at most `M` a unit on the
/// rest, and is the whole cost when everything is matched.
pub proof fn lemma_matched_cost(c: int, h: int, m: int, mx: int)
    requires
        0 <= c <= mx * h,
        0 < h,
        0 <= m <= h,
        mx >= 0,
    ensures
        0 <= c * m / h <= mx * m,
        c * m / h <= c,
        c - c * m / h <= mx * (h - m),
        m == h ==> c * m / h == c,
{
    let x = c * m;
    vstd::arithmetic::div_mod::lemma_fundamental_div_mod(x, h);
    vstd::arithmetic::div_mod::lemma_mod_pos_bound(x, h);
    let q = x / h;
    let r = x % h;
    assert(x >= 0) by (nonlinear_arith)
        requires
            x == c * m,
            c >= 0,
            m >= 0,
    {
    }
    vstd::arithmetic::div_mod::lemma_div_pos_is_pos(x, h);
    assert(q <= mx * m) by (nonlinear_arith)
        requires
            x == h * q + r,
            0 <= r < h,
            x == c * m,
            c <= mx * h,
            m >= 0,
            h > 0,
    {
    }
    assert(q <= c) by (nonlinear_arith)
        requires
            x == h * q + r,
            0 <= r,
            x == c * m,
            m <= h,
            c >= 0,
            h > 0,
    {
    }
    assert(h * c - mx * h * (h - m) <= c * m) by (nonlinear_arith)
        requires
            c <= mx * h,
            m <= h,
    {
    }
    assert(c - q <= mx * (h - m)) by (nonlinear_arith)
        requires
            h * c - mx * h * (h - m) <= c * m,
            c * m == h * q + r,
            r < h,
            h > 0,
    {
    }
    if m == h {
        vstd::arithmetic::div_mod::lemma_div_multiples_vanish(c, h);
        assert(c * m == h * c) by (nonlinear_arith)
            requires
                m == h,
        {
        }
    }
}

/// `c * m / h` computed without forming `c * m`.
pub proof fn lemma_split_div(c: int, h: int, m: int)
    requires
        c >= 0,
        h > 0,
        m >= 0,
    ensures
        c * m / h == (c / h) * m + (c % h) * m / h,
{
    vstd::arithmetic::div_mod::lemma_fundamental_div_mod(c, h);
    let a = c / h;
    let b = c % h;
    assert(c * m == b * m + (a * m) * h) by (nonlinear_arith)
        requires
            c == h * a + b,
    {
    }
    vstd::arithmetic::div_mod::lemma_hoist_over_denominator(b * m, a * m, h as nat);
}

pub proof fn lemma_pos_apply(p: PositionInfo, t: Trade, bound: int)
    requires
        pos_ok(p),
        abs(p.quantity as int) <= bound,
        bound + t.quantity <= 0x1_0000_0000_0000_0000 * MAX_QUANTITY as int,
        t.in_bounds(),
    ensures
        pos_ok(pos_apply(p, t).0),
        abs(pos_apply(p, t).0.quantity as int) <= abs(p.quantity as int) + t.quantity,
        closed_ok(pos_apply(p, t).1),
{
    let q = t.quantity as int;
    let price = t.price as int;
    if p.quantity == 0 {
        assert(price * q <= MAX_PRICE as int * q) by (nonlinear_arith)
            requires
                price <= MAX_PRICE,
                q >= 0,
        {
        }
        assert(price * q >= 0) by (nonlinear_arith)
            requires
                price >= 0,
                q >= 0,
        {
        }
    } else if (p.quantity > 0 && t.side == Side::Buy) || (p.quantity < 0 && t.side == Side::Sell) {
        let nq = p.quantity + signed_qty(t.side, q);
        let cost = p.total_cost + price * q;
        assert(abs(nq) == abs(p.quantity as int) + q);
        assert(price * q <= MAX_PRICE as int * q) by (nonlinear_arith)
            requires
                price <= MAX_PRICE,
                q >= 0,
        {
        }
        assert(price * q >= 0) by (nonlinear_arith)
            requires
                price >= 0,
                q >= 0,
        {
        }
        assert(cost <= MAX_PRICE as int * abs(nq)) by (nonlinear_arith)
            requires
                cost == p.total_cost + price * q,
                p.total_cost <= MAX_PRICE as int * abs(p.quantity as int),
                price * q <= MAX_PRICE as int * q,
                abs(nq) == abs(p.quantity as int) + q,
        {
        }
        vstd::arithmetic::div_mod::lemma_div_is_ordered(cost, MAX_PRICE as int * abs(nq), abs(nq));
        vstd::arithmetic::div_mod::lemma_div_multiples_vanish(MAX_PRICE as int, abs(nq));
        assert(MAX_PRICE as int * abs(nq) == abs(nq) * MAX_PRICE as int) by (nonlinear_arith);
        assert(cost / abs(nq) >= 0) by (nonlinear_arith)
            requires
                cost >= 0,
                abs(nq) > 0,
        {
        }
    } else {
        let held = abs(p.quantity as int);
        let m = if q <= held { q } else { held };
        let long = p.quantity > 0;
        lemma_matched_cost(p.total_cost as int, held, m, MAX_PRICE as int);
        let mc = p.total_cost * m / held;
        let pnl = if long { price * m - mc } else { mc - price * m };
        assert(0 <= price * m <= MAX_PRICE as int * m) by (nonlinear_arith)
            requires
                0 <= price <= MAX_PRICE,
                m >= 0,
        {
        }
        assert(MAX_PRICE as int * m <= pnl_bound()) by (nonlinear_arith)
            requires
                0 <= m <= MAX_QUANTITY,
                pnl_bound() == MAX_PRICE as int * MAX_QUANTITY as int,
        {
        }
        assert(-pnl_bound() <= pnl <= pnl_bound());
        let left = if long { p.quantity - m } else { p.quantity + m };
        let rem = q - m;
        assert(price * rem <= MAX_PRICE as int * rem && price * rem >= 0) by (nonlinear_arith)
            requires
                0 <= price <= MAX_PRICE,
                rem >= 0,
        {
        }
        if rem == 0 && left != 0 {
            let rc = p.total_cost - mc;
            assert(abs(left) == held - m);
            assert(0 <= rc <= MAX_PRICE as int * abs(left));
            vstd::arithmetic::div_mod::lemma_div_is_ordered(rc, MAX_PRICE as int * abs(left), abs(left));
            vstd::arithmetic::div_mod::lemma_div_multiples_vanish(MAX_PRICE as int, abs(left));
            assert(MAX_PRICE as int * abs(left) == abs(left) * MAX_PRICE as int) by (nonlinear_arith);
            vstd::arithmetic::div_mod::lemma_div_pos_is_pos(rc, abs(left));
        }
        let ct = pos_apply(p, t).1[0];
        assert(pos_apply(p, t).1.len() == 1);
    }
}

/// Every position and record produced from trades in bounds is in bounds,
/// and a position never holds more than the trades of its symbol brought.
pub proof fn lemma_pos_bounds(trades: Seq<Trade>, sym: Seq<char>)
    requires
        all_in_bounds(trades),
        trades.len() <= 0x1_0000_0000_0000_0000,
    ensures
        pos_ok(pos_after(trades, sym)),
        abs(pos_after(trades, sym).quantity as int) <= MAX_QUANTITY as int * trades.len(),
        closed_ok(pos_closed(trades)),
    decreases trades.len(),
{
    if trades.len() > 0 {
        let p = trades.drop_last();
        let t = trades.last();
        assert(all_in_bounds(p)) by {
            assert forall|i: int| 0 <= i < p.len() implies (#[trigger] p[i]).in_bounds() by {
                assert(p[i] == trades[i]);
            }
        }
        assert(t == trades[trades.len() - 1]);
        lemma_pos_bounds(p, sym);
        lemma_pos_bounds(p, t.symbol@);
        assert(trades.len() <= 0x1_0000_0000_0000_0000 ==> MAX_QUANTITY as int * trades.len() <= 0x1_0000_0000_0000_0000 * MAX_QUANTITY as int) by (nonlinear_arith);
        lemma_pos_apply(pos_after(p, sym), t, MAX_QUANTITY as int * p.len());
        lemma_pos_apply(pos_after(p, t.symbol@), t, MAX_QUANTITY as int * p.len());
        let a = pos_closed(p);
        let b = pos_apply(pos_after(p, t.symbol@), t).1;
        assert(closed_ok(a + b)) by {
            assert forall|i: int| 0 <= i < (a + b).len() implies -pnl_bound() <= (#[trigger] (a + b)[i]).pnl
                <= pnl_bound() by {
                if i < a.len() {
                    assert((a + b)[i] == a[i]);
                } else {
                    assert((a + b)[i] == b[i - a.len()]);
                }
            }
        }
    }
}

/// The position of a symbol that no trade carries is flat.
pub proof fn lemma_pos_absent(trades: Seq<Trade>, sym: Seq<char>)
    requires
        !symbols_of(trades).contains(sym),
    ensures
        pos_after(trades, sym) == flat(),
    decreases trades.len(),
{
    if trades.len() > 0 {
        let p = trades.drop_last();
        if symbols_of(p).contains(sym) {
            let j = choose|j: int| 0 <= j < symbols_of(p).len() && symbols_of(p)[j] == sym;
            if !symbols_of(p).contains(trades.last().symbol@) {
                assert(symbols_of(p).push(trades.last().symbol@)[j] == sym);
            }
        }
        if trades.last().symbol@ == sym {
            if !symbols_of(p).contains(sym) {
                assert(symbols_of(p).push(sym)[symbols_of(p).len() as int] == sym);
            }
        }
        lemma_pos_absent(p, sym);
    }
}

/// Applies one trade to a position, appending its closing record to `closed`.
fn apply_position(p: PositionInfo, t: &Trade, closed: &mut Vec<ClosedTrade>) -> (r: PositionInfo)
    requires
        pos_ok(p),
        abs(p.quantity as int) + t.quantity <= 0x1_0000_0000_0000_0000 * MAX_QUANTITY as int,
        t.in_bounds(),
    ensures
        r == pos_apply(p, *t).0,
        final(closed)@ == old(closed)@ + pos_apply(p, *t).1,
{
    proof {
        lemma_pos_apply(p, *t, abs(p.quantity as int));
    }
    let q = t.quantity;
    let price = t.price;
    if p.quantity == 0 {
        let sq: i128 = match t.side {
            Side::Buy => q as i128,
            Side::Sell => -(q as i128),
        };
        assert(closed@ =~= closed@ + Seq::<ClosedTrade>::empty());
        assert(price as int * q as int <= MAX_PRICE as int * MAX_QUANTITY as int) by (nonlinear_arith)
            requires
                price <= MAX_PRICE,
                q <= MAX_QUANTITY,
        {
        }
        PositionInfo { quantity: sq, avg_price: price, total_cost: price as u128 * q as u128 }
    } else if (p.quantity > 0 && t.side == Side::Buy) || (p.quantity < 0 && t.side == Side::Sell) {
        let nq: i128 = match t.side {
            Side::Buy => p.quantity + q as i128,
            Side::Sell => p.quantity - q as i128,
        };
        let anq: u128 = if nq < 0 { (-nq) as u128 } else { nq as u128 };
        proof {
            assert(price as int * q as int <= MAX_PRICE as int * q as int) by (nonlinear_arith)
                requires
                    price <= MAX_PRICE,
            {
            }
            assert(MAX_PRICE as int * abs(nq as int) <= MAX_PRICE as int * (0x1_0000_0000_0000_0000 * MAX_QUANTITY as int)) by (nonlinear_arith)
                requires
                    abs(nq as int) <= 0x1_0000_0000_0000_0000 * MAX_QUANTITY as int,
            {
            }
        }
        let cost: u128 = p.total_cost + price as u128 * q as u128;
        assert(closed@ =~= closed@ + Seq::<ClosedTrade>::empty());
        proof {
            assert(cost <= MAX_PRICE as int * anq) by (nonlinear_arith)
                requires
                    cost == p.total_cost + price as int * q as int,
                    p.total_cost <= MAX_PRICE as int * abs(p.quantity as int),
                    price as int * q as int <= MAX_PRICE as int * q as int,
                    anq == abs(p.quantity as int) + q,
            {
            }
            vstd::arithmetic::div_mod::lemma_div_is_ordered(cost as int, MAX_PRICE as int * anq, anq as int);
            vstd::arithmetic::div_mod::lemma_div_multiples_vanish(MAX_PRICE as int, anq as int);
            assert(MAX_PRICE as int * anq == anq * MAX_PRICE as int) by (nonlinear_arith);
        }
        PositionInfo { quantity: nq, avg_price: (cost / anq) as u64, total_cost: cost }
    } else {
        let held: u128 = if p.quantity < 0 { (-p.quantity) as u128 } else { p.quantity as u128 };
        let m: u64 = if (q as u128) <= held { q } else { held as u64 };
        let long = p.quantity > 0;
        proof {
            lemma_matched_cost(p.total_cost as int, held as int, m as int, MAX_PRICE as int);
            lemma_split_div(p.total_cost as int, held as int, m as int);
            vstd::arithmetic::div_mod::lemma_fundamental_div_mod(p.total_cost as int, held as int);
            vstd::arithmetic::div_mod::lemma_mod_pos_bound(p.total_cost as int, held as int);
            vstd::arithmetic::div_mod::lemma_div_is_ordered(p.total_cost as int, MAX_PRICE as int * held, held as int);
            vstd::arithmetic::div_mod::lemma_div_multiples_vanish(MAX_PRICE as int, held as int);
            assert(MAX_PRICE as int * held == held * MAX_PRICE as int) by (nonlinear_arith);
            assert((p.total_cost / held) * m <= MAX_PRICE as int * MAX_QUANTITY as int) by (nonlinear_arith)
                requires
                    0 <= p.total_cost / held <= MAX_PRICE,
                    m <= MAX_QUANTITY,
            {
            }
            assert((p.total_cost % held) * m <= held * MAX_QUANTITY as int) by (nonlinear_arith)
                requires
                    0 <= p.total_cost % held < held,
                    m <= MAX_QUANTITY,
            {
            }
            assert(held * MAX_QUANTITY as int <= 0x1_0000_0000_0000_0000 * MAX_QUANTITY as int * MAX_QUANTITY as int) by (nonlinear_arith)
                requires
                    held <= 0x1_0000_0000_0000_0000 * MAX_QUANTITY as int,
            {
            }
            vstd::arithmetic::div_mod::lemma_div_pos_is_pos((p.total_cost % held) * m, held as int);
            vstd::arithmetic::div_mod::lemma_div_is_ordered_by_denominator((p.total_cost % held) * m, 1, held as int);
            assert(0 <= price as int * m <= MAX_PRICE as int * MAX_QUANTITY as int) by (nonlinear_arith)
                requires
                    price <= MAX_PRICE,
                    m <= MAX_QUANTITY,
            {
            }
            assert(MAX_PRICE as int * m <= pnl_bound()) by (nonlinear_arith)
                requires
                    m <= MAX_QUANTITY,
                    pnl_bound() == MAX_PRICE as int * MAX_QUANTITY as int,
            {
            }
        }
        let mc: u128 = (p.total_cost / held) * m as u128 + (p.total_cost % held) * m as u128 / held;
        let pnl: i128 = if long {
            price as i128 * m as i128 - mc as i128
        } else {
            mc as i128 - price as i128 * m as i128
        };
        let ct = ClosedTrade {
            open_side: if long { Side::Buy } else { Side::Sell },
            quantity: m,
            open_price: p.avg_price,
            close_side: if long { Side::Sell } else { Side::Buy },
            close_price: price,
            pnl,
        };
        closed.push(ct);
        let left: i128 = if long { p.quantity - m as i128 } else { p.quantity + m as i128 };
        let rem: u64 = q - m;
        if rem > 0 {
            let sq: i128 = match t.side {
                Side::Buy => rem as i128,
                Side::Sell => -(rem as i128),
            };
            assert(price as int * rem as int <= MAX_PRICE as int * MAX_QUANTITY as int) by (nonlinear_arith)
                requires
                    price <= MAX_PRICE,
                    rem <= MAX_QUANTITY,
            {
            }
            PositionInfo { quantity: sq, avg_price: price, total_cost: price as u128 * rem as u128 }
        } else if left != 0 {
            let aleft: u128 = if left < 0 { (-left) as u128 } else { left as u128 };
            let rc: u128 = p.total_cost - mc;
            proof {
                assert(aleft == held - m);
                vstd::arithmetic::div_mod::lemma_div_is_ordered(rc as int, MAX_PRICE as int * aleft, aleft as int);
                vstd::arithmetic::div_mod::lemma_div_multiples_vanish(MAX_PRICE as int, aleft as int);
                assert(MAX_PRICE as int * aleft == aleft * MAX_PRICE as int) by (nonlinear_arith);
            }
            PositionInfo { quantity: left, avg_price: (rc / aleft) as u64, total_cost: rc }
        } else {
            PositionInfo { quantity: 0, avg_price: 0, total_cost: 0 }
        }
    }
}

/// Unrealized pnl of a position marked at `mark`.
fn value_position(p: PositionInfo, mark: u64) -> (v: i128)
    requires
        pos_ok(p),
        mark <= MAX_PRICE,
    ensures
        v == pos_value(p, mark as int),
        -(MAX_PRICE as int) * abs(p.quantity as int) <= v <= MAX_PRICE as int * abs(p.quantity as int),
{
    proof {
        assert(-(MAX_PRICE as int) * abs(p.quantity as int) <= (mark - p.avg_price) * abs(p.quantity as int) <= MAX_PRICE as int * abs(p.quantity as int)) by (nonlinear_arith)
            requires
                mark <= MAX_PRICE,
                p.avg_price <= MAX_PRICE,
        {
        }
        assert(-(MAX_PRICE as int) * abs(p.quantity as int) <= (p.avg_price - mark) * abs(p.quantity as int) <= MAX_PRICE as int * abs(p.quantity as int)) by (nonlinear_arith)
            requires
                mark <= MAX_PRICE,
                p.avg_price <= MAX_PRICE,
        {
        }
        assert(MAX_PRICE as int * abs(p.quantity as int) <= MAX_PRICE as int * (0x1_0000_0000_0000_0000 * MAX_QUANTITY as int)) by (nonlinear_arith)
            requires
                abs(p.quantity as int) <= 0x1_0000_0000_0000_0000 * MAX_QUANTITY as int,
        {
        }
    }
    if p.quantity > 0 {
        (mark as i128 - p.avg_price as i128) * p.quantity
    } else if p.quantity < 0 {
        (p.avg_price as i128 - mark as i128) * (-p.quantity)
    } else {
        0
    }
}

/// Tracks one aggregated position per symbol.
pub struct PositionPnlProcessor;

impl PositionPnlProcessor {
    pub fn new() -> (r: PositionPnlProcessor) {
        PositionPnlProcessor
    }

    /// Realized pnl of the trades against the average cost of each symbol,
    /// with the unrealized pnl and signed quantity of what stays open, each
    /// symbol marked at its last trade price.
    pub fn process_position(&self, trades: &[Trade]) -> (r: PnLResult)
        requires
            all_in_bounds(trades@),
        ensures
            r.closed_trades@ == pos_closed(trades@),
            r.total_pnl == sum_pnl(pos_closed(trades@)),
            r.unrealized_pnl == pos_unrealized(trades@),
            r.remaining_shares == pos_remaining(trades@),
            r.total_fees == 0,
    {
        let mut symbols: Vec<String> = Vec::new();
        let mut positions: Vec<PositionInfo> = Vec::new();
        let mut lasts: Vec<u64> = Vec::new();
        let mut closed: Vec<ClosedTrade> = Vec::new();
        let n: usize = trades.len();
        let mut i: usize = 0;
        while i < trades.len()
            invariant
                i <= trades@.len(),
                n == trades@.len(),
                all_in_bounds(trades@),
                symbols@.len() == symbols_of(trades@.subrange(0, i as int)).len(),
                positions@.len() == symbols@.len(),
                lasts@.len() == symbols@.len(),
                forall|k: int| 0 <= k < symbols@.len() ==> (#[trigger] symbols@[k])@ == symbols_of(trades@.subrange(0, i as int))[k],
                forall|k: int| 0 <= k < positions@.len() ==> #[trigger] positions@[k] == pos_after(trades@.subrange(0, i as int), symbols@[k]@),
                forall|k: int| 0 <= k < lasts@.len() ==> (#[trigger] lasts@[k]) as int == last_price(trades@.subrange(0, i as int), symbols@[k]@),
                closed@ == pos_closed(trades@.subrange(0, i as int)),
            decreases trades@.len() - i,
        {
            let ghost pre = trades@.subrange(0, i as int);
            let ghost nxt = trades@.subrange(0, i + 1);
            let t = &trades[i];
            proof {
                assert(nxt.drop_last() =~= pre);
                assert(nxt.last() == *t);
                assert(t.in_bounds());
                lemma_symbols_distinct(pre);
                lemma_symbols_distinct(nxt);
                assert(all_in_bounds(pre)) by {
                    assert forall|j: int| 0 <= j < pre.len() implies (#[trigger] pre[j]).in_bounds() by {
                        assert(pre[j] == trades@[j]);
                    }
                }
                lemma_pos_bounds(pre, t.symbol@);
                assert(MAX_QUANTITY as int * i + t.quantity <= 0x1_0000_0000_0000_0000 * MAX_QUANTITY as int) by (nonlinear_arith)
                    requires
                        i < 0x1_0000_0000_0000_0000,
                        t.quantity <= MAX_QUANTITY,
                {
                }
            }
            let found = find_symbol(&symbols, &t.symbol);
            let k: usize = match found {
                Some(k) => {
                    proof {
                        assert(symbols_of(pre)[k as int] == t.symbol@);
                        assert(symbols_of(pre).contains(t.symbol@));
                    }
                    k
                },
                None => {
                    proof {
                        if symbols_of(pre).contains(t.symbol@) {
                            let j = choose|j: int| 0 <= j < symbols_of(pre).len() && symbols_of(pre)[j] == t.symbol@;
                            assert(symbols@[j]@ == t.symbol@);
                        }
                        lemma_pos_absent(pre, t.symbol@);
                    }
                    symbols.push(t.symbol.clone());
                    positions.push(PositionInfo { quantity: 0, avg_price: 0, total_cost: 0 });
                    lasts.push(0);
                    symbols.len() - 1
                },
            };
            let np = apply_position(positions[k], t, &mut closed);
            positions.set(k, np);
            lasts.set(k, t.price);
            i = i + 1;
            proof {
                let sp = symbols_of(pre);
                let sn = symbols_of(nxt);
                assert forall|j: int| 0 <= j < symbols@.len() implies (#[trigger] symbols@[j])@ == sn[j] by {
                    if j < sp.len() {
                        assert(sn[j] == sp[j]);
                    }
                }
                assert forall|j: int| 0 <= j < positions@.len() implies #[trigger] positions@[j] == pos_after(nxt, symbols@[j]@) by {
                    if j != k {
                        assert(symbols@[j]@ != t.symbol@);
                    }
                }
                assert forall|j: int| 0 <= j < lasts@.len() implies (#[trigger] lasts@[j]) as int == last_price(nxt, symbols@[j]@) by {
                    if j != k {
                        assert(symbols@[j]@ != t.symbol@);
                    }
                }
            }
        }
        proof {
            assert(trades@.subrange(0, i as int) =~= trades@);
            lemma_pos_bounds(trades@, Seq::<char>::empty());
        }
        let total_pnl = sum_closed(&closed);
        let ghost syms = symbols_of(trades@);
        proof {
            lemma_pos_size(trades@);
        }
        let mut unrealized: i128 = 0;
        let mut remaining: i128 = 0;
        let mut k: usize = 0;
        while k < symbols.len()
            invariant
                k <= symbols@.len(),
                symbols@.len() == syms.len(),
                positions@.len() == symbols@.len(),
                lasts@.len() == symbols@.len(),
                n == trades@.len(),
                all_in_bounds(trades@),
                forall|j: int| 0 <= j < symbols@.len() ==> (#[trigger] symbols@[j])@ == syms[j],
                forall|j: int| 0 <= j < positions@.len() ==> #[trigger] positions@[j] == pos_after(trades@, symbols@[j]@),
                forall|j: int| 0 <= j < lasts@.len() ==> (#[trigger] lasts@[j]) as int == last_price(trades@, symbols@[j]@),
                sum_over(syms, size_fn(trades@)) <= MAX_QUANTITY as int * trades@.len(),
                unrealized == sum_over(syms.subrange(0, k as int), value_fn(trades@)),
                remaining == sum_over(syms.subrange(0, k as int), qty_fn(trades@)),
                -(MAX_PRICE as int) * sum_over(syms.subrange(0, k as int), size_fn(trades@)) <= unrealized
                    <= MAX_PRICE as int * sum_over(syms.subrange(0, k as int), size_fn(trades@)),
                -sum_over(syms.subrange(0, k as int), size_fn(trades@)) <= remaining
                    <= sum_over(syms.subrange(0, k as int), size_fn(trades@)),
            decreases symbols@.len() - k,
        {
            let ghost s = syms[k as int];
            let ghost sub = syms.subrange(0, k + 1);
            let ghost prv = syms.subrange(0, k as int);
            proof {
                assert(sub.drop_last() =~= prv);
                assert(sub.last() == s);
                lemma_pos_bounds(trades@, s);
                lemma_last_price_bound(trades@, s);
                assert forall|x: Seq<char>| #[trigger] size_fn(trades@)(x) >= 0 by {}
                lemma_sum_over_prefix(syms, size_fn(trades@), k + 1);
                assert(trades@.len() < 0x1_0000_0000_0000_0000);
                assert(MAX_PRICE as int * sum_over(sub, size_fn(trades@)) <= MAX_PRICE as int * (MAX_QUANTITY as int * trades@.len())) by (nonlinear_arith)
                    requires
                        sum_over(sub, size_fn(trades@)) <= MAX_QUANTITY as int * trades@.len(),
                {
                }
                assert(MAX_PRICE as int * (MAX_QUANTITY as int * trades@.len()) <= 0x4000_0000_0000_0000 * 0x1_0000_0000_0000_0000) by (nonlinear_arith)
                    requires
                        trades@.len() < 0x1_0000_0000_0000_0000,
                {
                }
            }
            let p = positions[k];
            let v = value_position(p, lasts[k]);
            proof {
                let sp = sum_over(prv, size_fn(trades@));
                let a = abs(p.quantity as int);
                assert(sum_over(sub, size_fn(trades@)) == sp + a);
                assert(-(MAX_PRICE as int) * (sp + a) <= unrealized + v <= MAX_PRICE as int * (sp + a)) by (nonlinear_arith)
                    requires
                        -(MAX_PRICE as int) * sp <= unrealized <= MAX_PRICE as int * sp,
                        -(MAX_PRICE as int) * a <= v <= MAX_PRICE as int * a,
                {
                }
            }
            unrealized = unrealized + v;
            remaining = remaining + p.quantity;
            k = k + 1;
        }
        proof {
            assert(syms.subrange(0, k as int) =~= syms);
        }
        PnLResult {
            total_pnl,
            unrealized_pnl: unrealized,
            closed_trades: closed,
            total_fees: 0,
            remaining_shares: remaining,
        }
    }
}

/// The total absolute open quantity grows by at most each trade's quantity.
pub proof fn lemma_pos_size(trades: Seq<Trade>)
    requires
        all_in_bounds(trades),
        trades.len() <= 0x1_0000_0000_0000_0000,
    ensures
        sum_over(symbols_of(trades), size_fn(trades)) <= MAX_QUANTITY as int * trades.len(),
    decreases trades.len(),
{
    if trades.len() > 0 {
        let pre = trades.drop_last();
        let t = trades.last();
        assert(all_in_bounds(pre)) by {
            assert forall|j: int| 0 <= j < pre.len() implies (#[trigger] pre[j]).in_bounds() by {
                assert(pre[j] == trades[j]);
            }
        }
        assert(t == trades[trades.len() - 1]);
        lemma_pos_size(pre);
        lemma_pos_bounds(pre, t.symbol@);
        lemma_pos_apply(pos_after(pre, t.symbol@), t, abs(pos_after(pre, t.symbol@).quantity as int));
        let sp = symbols_of(pre);
        lemma_symbols_distinct(pre);
        assert forall|j: int| 0 <= j < sp.len() && sp[j] != t.symbol@ implies size_fn(trades)(#[trigger] sp[j]) == size_fn(pre)(sp[j]) by {
        }
        lemma_sum_over_frame(sp, size_fn(pre), size_fn(trades), t.symbol@);
        if !sp.contains(t.symbol@) {
            let sn = symbols_of(trades);
            assert(sn == sp.push(t.symbol@));
            assert(sn.drop_last() =~= sp);
            assert(sn.last() == t.symbol@);
            lemma_pos_absent(pre, t.symbol@);
        }
    }
}

} // verus!
