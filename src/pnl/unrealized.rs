//! Unrealized pnl of open trades against the last traded prices.
use vstd::prelude::*;
use crate::models::{Side, Trade, MAX_PRICE, MAX_QUANTITY, all_in_bounds};
use crate::pnl::book::{find_symbol, last_price, lemma_last_price_bound, lemma_symbols_distinct, symbols_of};

verus! {

/// Unrealized pnl of a position of `quantity` at `avg_price` marked at
/// `current_price`: long gains as the price rises, short as it falls.
pub fn calculate_position_unrealized_pnl(position_quantity: i128, avg_price: u64, current_price: u64, is_long: bool) -> (r: i128)
    requires
        -0x1_0000_0000_0000_0000 <= position_quantity <= 0x1_0000_0000_0000_0000,
        avg_price <= MAX_PRICE,
        current_price <= MAX_PRICE,
    ensures
        r == if is_long {
            (current_price - avg_price) * position_quantity
        } else {
            (avg_price - current_price) * (if position_quantity < 0 { -position_quantity } else { position_quantity as int })
        },
{
    proof {
        assert(-0x1_0000_0000_0000_0000 * (MAX_PRICE as int) <= (current_price - avg_price) * position_quantity <= 0x1_0000_0000_0000_0000 * (MAX_PRICE as int)) by (nonlinear_arith)
            requires
                -0x1_0000_0000_0000_0000 <= position_quantity <= 0x1_0000_0000_0000_0000,
                avg_price <= MAX_PRICE,
                current_price <= MAX_PRICE,
        {
        }
        let a: int = if position_quantity < 0 { -position_quantity } else { position_quantity as int };
        assert(-0x1_0000_0000_0000_0000 * (MAX_PRICE as int) <= (avg_price - current_price) * a <= 0x1_0000_0000_0000_0000 * (MAX_PRICE as int)) by (nonlinear_arith)
            requires
                0 <= a <= 0x1_0000_0000_0000_0000,
                avg_price <= MAX_PRICE,
                current_price <= MAX_PRICE,
        {
        }
    }
    if is_long {
        (current_price as i128 - avg_price as i128) * position_quantity
    } else {
        let a: i128 = if position_quantity < 0 { -position_quantity } else { position_quantity };
        (avg_price as i128 - current_price as i128) * a
    }
}

/// Price of the last trade of `sym` on `side`; zero if there is none.
pub open spec fn last_side_price(trades: Seq<Trade>, sym: Seq<char>, side: Side) -> int
    decreases trades.len(),
{
    if trades.len() == 0 {
        0
    } else if trades.last().symbol@ == sym && trades.last().side == side {
        trades.last().price as int
    } else {
        last_side_price(trades.drop_last(), sym, side)
    }
}

pub proof fn lemma_last_side_absent(trades: Seq<Trade>, sym: Seq<char>, side: Side)
    requires
        !symbols_of(trades).contains(sym),
    ensures
        last_side_price(trades, sym, side) == 0,
    decreases trades.len(),
{
    if trades.len() > 0 {
        let p = trades.drop_last();
        if symbols_of(p).contains(sym) {
            let j = choose|j: int| 0 <= j < symbols_of(p).len() && symbols_of(p)[j] == sym;
            if !symbols_of(p).contains(trades.last().symbol@) {
                assert(symbols_of(p).push(trades.last().symbol@)[j] == sym);
            }
        }
        if trades.last().symbol@ == sym {
            if !symbols_of(p).contains(sym) {
                assert(symbols_of(p).push(sym)[symbols_of(p).len() as int] == sym);
            }
        }
        lemma_last_side_absent(p, sym, side);
    }
}

/// The symbols of the trades in order of first appearance, each with the
/// price of its last buy and of its last sell (zero where there is none).
pub fn get_last_prices(trades: &[Trade]) -> (r: Vec<(String, u64, u64)>)
    ensures
        r@.len() == symbols_of(trades@).len(),
        forall|k: int| 0 <= k < r@.len() ==> {
            let e = #[trigger] r@[k];
            &&& e.0@ == symbols_of(trades@)[k]
            &&& e.1 == last_side_price(trades@, e.0@, Side::Buy)
            &&& e.2 == last_side_price(trades@, e.0@, Side::Sell)
        },
{
    let mut syms: Vec<String> = Vec::new();
    let mut buys: Vec<u64> = Vec::new();
    let mut sells: Vec<u64> = Vec::new();
    let mut i: usize = 0;
    while i < trades.len()
        invariant
            i <= trades@.len(),
            syms@.len() == symbols_of(trades@.subrange(0, i as int)).len(),
            buys@.len() == syms@.len(),
            sells@.len() == syms@.len(),
            forall|k: int| 0 <= k < syms@.len() ==> (#[trigger] syms@[k])@ == symbols_of(trades@.subrange(0, i as int))[k],
            forall|k: int| 0 <= k < buys@.len() ==> (#[trigger] buys@[k]) as int == last_side_price(trades@.subrange(0, i as int), syms@[k]@, Side::Buy),
            forall|k: int| 0 <= k < sells@.len() ==> (#[trigger] sells@[k]) as int == last_side_price(trades@.subrange(0, i as int), syms@[k]@, Side::Sell),
        decreases trades@.len() - i,
    {
        let ghost pre = trades@.subrange(0, i as int);
        let ghost nxt = trades@.subrange(0, i + 1);
        let t = &trades[i];
        proof {
            assert(nxt.drop_last() =~= pre);
            assert(nxt.last() == *t);
            lemma_symbols_distinct(pre);
            lemma_symbols_distinct(nxt);
        }
        let k: usize = match find_symbol(&syms, &t.symbol) {
            Some(k) => {
                proof {
                    assert(symbols_of(pre)[k as int] == t.symbol@);
                    assert(symbols_of(pre).contains(t.symbol@));
                }
                k
            },
            None => {
                proof {
                    if symbols_of(pre).contains(t.symbol@) {
                        let j = choose|j: int| 0 <= j < symbols_of(pre).len() && symbols_of(pre)[j] == t.symbol@;
                        assert(syms@[j]@ == t.symbol@);
                    }
                    lemma_last_side_absent(pre, t.symbol@, Side::Buy);
                    lemma_last_side_absent(pre, t.symbol@, Side::Sell);
                }
                syms.push(t.symbol.clone());
                buys.push(0);
                sells.push(0);
                syms.len() - 1
            },
        };
        match t.side {
            Side::Buy => buys.set(k, t.price),
            Side::Sell => sells.set(k, t.price),
        }
        i = i + 1;
        proof {
            let sp = symbols_of(pre);
            let sn = symbols_of(nxt);
            assert forall|j: int| 0 <= j < syms@.len() implies (#[trigger] syms@[j])@ == sn[j] by {
                if j < sp.len() {
                    assert(sn[j] == sp[j]);
                }
            }
            assert forall|j: int| 0 <= j < buys@.len() implies (#[trigger] buys@[j]) as int == last_side_price(nxt, syms@[j]@, Side::Buy) by {
                if j != k {
                    assert(syms@[j]@ != t.symbol@);
                }
            }
            assert forall|j: int| 0 <= j < sells@.len() implies (#[trigger] sells@[j]) as int == last_side_price(nxt, syms@[j]@, Side::Sell) by {
                if j != k {
                    assert(syms@[j]@ != t.symbol@);
                }
            }
        }
    }
    proof {
        assert(trades@.subrange(0, i as int) =~= trades@);
    }
    let mut out: Vec<(String, u64, u64)> = Vec::new();
    let mut k: usize = 0;
    while k < syms.len()
        invariant
            k <= syms@.len(),
            buys@.len() == syms@.len(),
            sells@.len() == syms@.len(),
            syms@.len() == symbols_of(trades@).len(),
            forall|j: int| 0 <= j < syms@.len() ==> (#[trigger] syms@[j])@ == symbols_of(trades@)[j],
            forall|j: int| 0 <= j < buys@.len() ==> (#[trigger] buys@[j]) as int == last_side_price(trades@, syms@[j]@, Side::Buy),
            forall|j: int| 0 <= j < sells@.len() ==> (#[trigger] sells@[j]) as int == last_side_price(trades@, syms@[j]@, Side::Sell),
            out@.len() == k,
            forall|j: int| 0 <= j < k ==> {
                let e = #[trigger] out@[j];
                &&& e.0@ == symbols_of(trades@)[j]
                &&& e.1 == last_side_price(trades@, e.0@, Side::Buy)
                &&& e.2 == last_side_price(trades@, e.0@, Side::Sell)
            },
        decreases syms@.len() - k,
    {
        out.push((syms[k].clone(), buys[k], sells[k]));
        k = k + 1;
    }
    out
}

/// Unrealized pnl of open trades marked at `mark`: a buy gains as the price
/// rises above its own, a sell as it falls below.
pub open spec fn open_value(ts: Seq<Trade>, mark: int) -> int
    decreases ts.len(),
{
    if ts.len() == 0 {
        0
    } else {
        let t = ts.last();
        open_value(ts.drop_last(), mark) + match t.side {
            Side::Buy => (mark - t.price) * t.quantity,
            Side::Sell => (t.price - mark) * t.quantity,
        }
    }
}

/// Signed quantity of open trades: buys positive, sells negative.
pub open spec fn open_signed(ts: Seq<Trade>) -> int
    decreases ts.len(),
{
    if ts.len() == 0 {
        0
    } else {
        open_signed(ts.drop_last()) + match ts.last().side {
            Side::Buy => ts.last().quantity as int,
            Side::Sell => -(ts.last().quantity as int),
        }
    }
}

/// Unrealized pnl of one symbol's open trades, marked at the price of the
/// last filled order of that symbol (zero if there is none).
pub open spec fn entry_value(e: (String, Vec<Trade>), filled: Seq<Trade>) -> int {
    open_value(e.1@, last_price(filled, e.0@))
}

/// Total unrealized pnl of the entries.
pub open spec fn entries_value(es: Seq<(String, Vec<Trade>)>, filled: Seq<Trade>) -> int
    decreases es.len(),
{
    if es.len() == 0 { 0 } else { entries_value(es.drop_last(), filled) + entry_value(es.last(), filled) }
}

/// Value and signed quantity of one symbol's open trades.
fn value_open(ts: &Vec<Trade>, mark: u64) -> (r: (i128, i128))
    requires
        all_in_bounds(ts@),
        ts@.len() <= 0x1_0000_0000,
        mark <= MAX_PRICE,
    ensures
        r.0 == open_value(ts@, mark as int),
        r.1 == open_signed(ts@),
        -0x4000_0000_0000_0000_0000_0000 <= r.0 <= 0x4000_0000_0000_0000_0000_0000,
{
    let mut v: i128 = 0;
    let mut q: i128 = 0;
    let mut j: usize = 0;
    while j < ts.len()
        invariant
            j <= ts@.len(),
            ts@.len() <= 0x1_0000_0000,
            all_in_bounds(ts@),
            mark <= MAX_PRICE,
            v == open_value(ts@.subrange(0, j as int), mark as int),
            q == open_signed(ts@.subrange(0, j as int)),
            -0x4000_0000_0000_0000 * j <= v <= 0x4000_0000_0000_0000 * j,
            -0x8000_0000 * j <= q <= 0x8000_0000 * j,
        decreases ts@.len() - j,
    {
        let t = &ts[j];
        proof {
            assert(ts@.subrange(0, j + 1).drop_last() =~= ts@.subrange(0, j as int));
            assert(ts@.subrange(0, j + 1).last() == *t);
            assert(t.in_bounds());
            assert(-0x4000_0000_0000_0000 <= (mark - t.price) * t.quantity <= 0x4000_0000_0000_0000) by (nonlinear_arith)
                requires
                    mark <= MAX_PRICE,
                    t.price <= MAX_PRICE,
                    t.quantity <= MAX_QUANTITY,
            {
            }
            assert(-0x4000_0000_0000_0000 <= (t.price - mark) * t.quantity <= 0x4000_0000_0000_0000) by (nonlinear_arith)
                requires
                    mark <= MAX_PRICE,
                    t.price <= MAX_PRICE,
                    t.quantity <= MAX_QUANTITY,
            {
            }
            assert(0x4000_0000_0000_0000 * (j + 1) == 0x4000_0000_0000_0000 * j + 0x4000_0000_0000_0000) by (nonlinear_arith);
            assert(0x8000_0000 * (j + 1) == 0x8000_0000 * j + 0x8000_0000) by (nonlinear_arith);
            assert(0x4000_0000_0000_0000 * (j + 1) <= 0x4000_0000_0000_0000 * 0x1_0000_0000) by (nonlinear_arith)
                requires
                    j < 0x1_0000_0000,
            {
            }
            assert(0x8000_0000 * (j + 1) <= 0x8000_0000 * 0x1_0000_0000) by (nonlinear_arith)
                requires
                    j < 0x1_0000_0000,
            {
            }
        }
        match t.side {
            Side::Buy => {
                v = v + (mark as i128 - t.price as i128) * t.quantity as i128;
                q = q + t.quantity as i128;
            },
            Side::Sell => {
                v = v + (t.price as i128 - mark as i128) * t.quantity as i128;
                q = q - t.quantity as i128;
            },
        }
        j = j + 1;
    }
    proof {
        assert(ts@.subrange(0, j as int) =~= ts@);
        assert(0x4000_0000_0000_0000 * j <= 0x4000_0000_0000_0000 * 0x1_0000_0000) by (nonlinear_arith)
            requires
                j <= 0x1_0000_0000,
        {
        }
    }
    (v, q)
}

/// Unrealized pnl of open trades grouped by symbol, each symbol's trades
/// marked at the price of its last filled order (zero where there is none). Gives the total, and per symbol the
/// pnl and the signed open quantity, in the order of `open_trades`.
pub fn calculate_unrealized_pnl(open_trades: &[(String, Vec<Trade>)], filled_orders: &[Trade]) -> (r: (i128, Vec<(String, i128)>, Vec<(String, i128)>))
    requires
        all_in_bounds(filled_orders@),
        open_trades@.len() <= 0x1_0000_0000,
        forall|k: int| 0 <= k < open_trades@.len() ==> all_in_bounds((#[trigger] open_trades@[k]).1@)
            && open_trades@[k].1@.len() <= 0x1_0000_0000,
    ensures
        r.0 == entries_value(open_trades@, filled_orders@),
        r.1@.len() == open_trades@.len(),
        r.2@.len() == open_trades@.len(),
        forall|k: int| 0 <= k < open_trades@.len() ==> {
            &&& (#[trigger] r.1@[k]).0@ == open_trades@[k].0@
            &&& r.1@[k].1 == entry_value(open_trades@[k], filled_orders@)
            &&& r.2@[k].0@ == open_trades@[k].0@
            &&& r.2@[k].1 == open_signed(open_trades@[k].1@)
        },
{
    let mut total: i128 = 0;
    let mut by_asset: Vec<(String, i128)> = Vec::new();
    let mut remaining: Vec<(String, i128)> = Vec::new();
    let mut k: usize = 0;
    while k < open_trades.len()
        invariant
            k <= open_trades@.len(),
            open_trades@.len() <= 0x1_0000_0000,
            all_in_bounds(filled_orders@),
            forall|j: int| 0 <= j < open_trades@.len() ==> all_in_bounds((#[trigger] open_trades@[j]).1@)
                && open_trades@[j].1@.len() <= 0x1_0000_0000,
            total == entries_value(open_trades@.subrange(0, k as int), filled_orders@),
            -0x4000_0000_0000_0000_0000_0000 * k <= total <= 0x4000_0000_0000_0000_0000_0000 * k,
            by_asset@.len() == k,
            remaining@.len() == k,
            forall|j: int| 0 <= j < k ==> {
                &&& (#[trigger] by_asset@[j]).0@ == open_trades@[j].0@
                &&& by_asset@[j].1 == entry_value(open_trades@[j], filled_orders@)
                &&& remaining@[j].0@ == open_trades@[j].0@
                &&& remaining@[j].1 == open_signed(open_trades@[j].1@)
            },
        decreases open_trades@.len() - k,
    {
        let entry = &open_trades[k];
        let mark = last_trade_price(filled_orders, &entry.0);
        proof {
            lemma_last_price_bound(filled_orders@, entry.0@);
            assert(all_in_bounds(open_trades@[k as int].1@));
        }
        let (v, q) = value_open(&entry.1, mark);
        proof {
            assert(open_trades@.subrange(0, k + 1).drop_last() =~= open_trades@.subrange(0, k as int));
            assert(open_trades@.subrange(0, k + 1).last() == open_trades@[k as int]);
            assert(0x4000_0000_0000_0000_0000_0000 * (k + 1) == 0x4000_0000_0000_0000_0000_0000 * k + 0x4000_0000_0000_0000_0000_0000) by (nonlinear_arith);
            assert(0x4000_0000_0000_0000_0000_0000 * (k + 1) <= 0x4000_0000_0000_0000_0000_0000 * 0x1_0000_0000) by (nonlinear_arith)
                requires
                    k < 0x1_0000_0000,
            {
            }
        }
        total = total + v;
        by_asset.push((entry.0.clone(), v));
        remaining.push((entry.0.clone(), q));
        k = k + 1;
    }
    proof {
        assert(open_trades@.subrange(0, k as int) =~= open_trades@);
    }
    (total, by_asset, remaining)
}

/// Price of the last trade of `sym` (see `last_price`).
pub fn last_trade_price(trades: &[Trade], sym: &String) -> (r: u64)
    ensures
        r == last_price(trades@, sym@),
{
    let mut i: usize = trades.len();
    proof {
        assert(trades@.subrange(0, i as int) =~= trades@);
    }
    while i > 0
        invariant
            i <= trades@.len(),
            last_price(trades@, sym@) == last_price(trades@.subrange(0, i as int), sym@),
        decreases i,
    {
        proof {
            assert(trades@.subrange(0, i as int).drop_last() =~= trades@.subrange(0, i - 1));
            assert(trades@.subrange(0, i as int).last() == trades@[i - 1]);
        }
        if trades[i - 1].symbol == *sym {
            return trades[i - 1].price;
        }
        i = i - 1;
    }
    0
}

} // verus!
