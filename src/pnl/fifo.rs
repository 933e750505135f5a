//! Realized pnl by first-in-first-out lot matching.
use vstd::prelude::*;
use crate::models::{
    ClosedTrade, PnLResult, Side, Trade, MAX_PRICE, MAX_QUANTITY, all_in_bounds, closed_ok,
    pnl_bound, sum_closed, sum_pnl,
};
use crate::pnl::book::{
    find_symbol, last_price, lemma_last_price_bound, lemma_symbols_distinct, symbols_of,
};

verus! {

/// An open quantity bought or sold at one price.
#[derive(Clone, Copy, Debug, PartialEq, Eq, Structural)]
pub struct Lot {
    pub side: Side,
    pub price: u64,
    pub quantity: u64,
}

/// Pnl of closing `qty` opened at `open_price` by a trade on `close_side`
/// at `close_price`.
pub open spec fn match_pnl(close_side: Side, open_price: int, close_price: int, qty: int) -> int {
    match close_side {
        Side::Buy => (open_price - close_price) * qty,
        Side::Sell => (close_price - open_price) * qty,
    }
}

/// Matches `rem` units of a trade on `side` at `price` against `lots`, oldest
/// first. Gives the lots left, the matches made, and the quantity unmatched.
pub open spec fn fifo_match(lots: Seq<Lot>, side: Side, price: u64, rem: nat) -> (Seq<Lot>, Seq<ClosedTrade>, nat)
    decreases lots.len() + rem,
{
    if rem == 0 || lots.len() == 0 {
        (lots, seq![], rem)
    } else {
        let open = lots[0];
        let m: nat = if rem <= open.quantity { rem } else { open.quantity as nat };
        let ct = ClosedTrade {
            open_side: open.side,
            quantity: m as u64,
            open_price: open.price,
            close_side: side,
            close_price: price,
            pnl: match_pnl(side, open.price as int, price as int, m as int) as i128,
        };
        let rest = if open.quantity as nat == m {
            lots.drop_first()
        } else {
            lots.update(0, Lot { quantity: (open.quantity - m) as u64, ..open })
        };
        let r = fifo_match(rest, side, price, (rem - m) as nat);
        (r.0, seq![ct] + r.1, r.2)
    }
}

/// Applies one trade to the open lots of its symbol: a trade on the side of
/// the lots (or on an empty book) opens a lot; otherwise it closes lots oldest
/// first and whatever is left of it opens a lot.
pub open spec fn fifo_apply(lots: Seq<Lot>, t: Trade) -> (Seq<Lot>, Seq<ClosedTrade>) {
    let new_lot = Lot { side: t.side, price: t.price, quantity: t.quantity };
    if lots.len() == 0 || lots[0].side == t.side {
        (lots.push(new_lot), seq![])
    } else {
        let r = fifo_match(lots, t.side, t.price, t.quantity as nat);
        if r.2 > 0 {
            (r.0.push(Lot { quantity: r.2 as u64, ..new_lot }), r.1)
        } else {
            (r.0, r.1)
        }
    }
}

/// Open lots of `sym` after the trades.
pub open spec fn fifo_lots(trades: Seq<Trade>, sym: Seq<char>) -> Seq<Lot>
    decreases trades.len(),
{
    if trades.len() == 0 {
        seq![]
    } else {
        let prev = fifo_lots(trades.drop_last(), sym);
        if trades.last().symbol@ == sym {
            fifo_apply(prev, trades.last()).0
        } else {
            prev
        }
    }
}

/// Every match made over the trades, in trade order.
pub open spec fn fifo_closed(trades: Seq<Trade>) -> Seq<ClosedTrade>
    decreases trades.len(),
{
    if trades.len() == 0 {
        seq![]
    } else {
        let t = trades.last();
        fifo_closed(trades.drop_last()) + fifo_apply(fifo_lots(trades.drop_last(), t.symbol@), t).1
    }
}

/// Value of open lots marked at `mark`.
pub open spec fn lots_value(lots: Seq<Lot>, mark: int) -> int
    decreases lots.len(),
{
    if lots.len() == 0 {
        0
    } else {
        let l = lots.last();
        lots_value(lots.drop_last(), mark) + match l.side {
            Side::Buy => (mark - l.price) * l.quantity,
            Side::Sell => (l.price - mark) * l.quantity,
        }
    }
}

/// Signed open quantity of lots: long positive, short negative.
pub open spec fn lots_signed(lots: Seq<Lot>) -> int
    decreases lots.len(),
{
    if lots.len() == 0 {
        0
    } else {
        let l = lots.last();
        lots_signed(lots.drop_last()) + match l.side {
            Side::Buy => l.quantity as int,
            Side::Sell => -(l.quantity as int),
        }
    }
}

/// Total quantity of lots.
pub open spec fn lots_qty(lots: Seq<Lot>) -> int
    decreases lots.len(),
{
    if lots.len() == 0 {
        0
    } else {
        lots_qty(lots.drop_last()) + lots.last().quantity
    }
}

/// Unrealized pnl of the listed symbols, each marked at its last trade price.
pub open spec fn fifo_unrealized_of(trades: Seq<Trade>, syms: Seq<Seq<char>>) -> int
    decreases syms.len(),
{
    if syms.len() == 0 {
        0
    } else {
        fifo_unrealized_of(trades, syms.drop_last())
            + lots_value(fifo_lots(trades, syms.last()), last_price(trades, syms.last()))
    }
}

/// Signed open quantity of the listed symbols.
pub open spec fn fifo_remaining_of(trades: Seq<Trade>, syms: Seq<Seq<char>>) -> int
    decreases syms.len(),
{
    if syms.len() == 0 {
        0
    } else {
        fifo_remaining_of(trades, syms.drop_last()) + lots_signed(fifo_lots(trades, syms.last()))
    }
}

/// Unrealized pnl of all open lots after the trades.
pub open spec fn fifo_unrealized(trades: Seq<Trade>) -> int {
    fifo_unrealized_of(trades, symbols_of(trades))
}

/// Signed open quantity of all symbols after the trades.
pub open spec fn fifo_remaining(trades: Seq<Trade>) -> int {
    fifo_remaining_of(trades, symbols_of(trades))
}

/// Lots whose price and quantity lie within the accepted bounds.
pub open spec fn lots_ok(lots: Seq<Lot>) -> bool {
    forall|i: int| 0 <= i < lots.len() ==> (#[trigger] lots[i]).price <= MAX_PRICE
        && lots[i].quantity <= MAX_QUANTITY
}

pub proof fn lemma_lots_qty_drop_first(lots: Seq<Lot>)
    requires
        lots.len() > 0,
    ensures
        lots_qty(lots) == lots[0].quantity + lots_qty(lots.drop_first()),
    decreases lots.len(),
{
    if lots.len() > 1 {
        lemma_lots_qty_drop_first(lots.drop_last());
        assert(lots.drop_last().drop_first() =~= lots.drop_first().drop_last());
        assert(lots.drop_first().last() == lots.last());
        assert(lots.drop_last()[0] == lots[0]);
    } else {
        assert(lots.drop_first().len() == 0);
        assert(lots.drop_last().len() == 0);
        assert(lots.last() == lots[0]);
        assert(lots_qty(lots.drop_first()) == 0);
        assert(lots_qty(lots.drop_last()) == 0);
    }
}

pub proof fn lemma_lots_qty_update_first(lots: Seq<Lot>, l: Lot)
    requires
        lots.len() > 0,
    ensures
        lots_qty(lots.update(0, l)) == lots_qty(lots) - lots[0].quantity + l.quantity,
{
    lemma_lots_qty_drop_first(lots);
    lemma_lots_qty_drop_first(lots.update(0, l));
    assert(lots.update(0, l).drop_first() =~= lots.drop_first());
}

/// Matching keeps lots and matches within bounds, consumes from the lots
/// exactly the quantity it matches, and never leaves both lots and quantity.
pub proof fn lemma_fifo_match(lots: Seq<Lot>, side: Side, price: u64, rem: nat)
    requires
        lots_ok(lots),
        price <= MAX_PRICE,
        rem <= MAX_QUANTITY,
    ensures
        ({
            let r = fifo_match(lots, side, price, rem);
            &&& lots_ok(r.0)
            &&& closed_ok(r.1)
            &&& r.2 <= rem
            &&& lots_qty(r.0) + (rem - r.2) == lots_qty(lots)
            &&& (r.2 == 0 || r.0.len() == 0)
        }),
    decreases lots.len() + rem,
{
    if rem == 0 || lots.len() == 0 {
    } else {
        let open = lots[0];
        let m: nat = if rem <= open.quantity { rem } else { open.quantity as nat };
        let rest = if open.quantity as nat == m {
            lots.drop_first()
        } else {
            lots.update(0, Lot { quantity: (open.quantity - m) as u64, ..open })
        };
        lemma_lots_qty_drop_first(lots);
        if open.quantity as nat != m {
            lemma_lots_qty_update_first(lots, Lot { quantity: (open.quantity - m) as u64, ..open });
        }
        assert(lots_ok(rest));
        lemma_fifo_match(rest, side, price, (rem - m) as nat);
        let p = match_pnl(side, open.price as int, price as int, m as int);
        assert(-pnl_bound() <= p <= pnl_bound()) by (nonlinear_arith)
            requires
                p == match_pnl(side, open.price as int, price as int, m as int),
                open.price <= MAX_PRICE,
                price <= MAX_PRICE,
                m <= MAX_QUANTITY,
        {
        }
        let r = fifo_match(rest, side, price, (rem - m) as nat);
        let ct = ClosedTrade {
            open_side: open.side,
            quantity: m as u64,
            open_price: open.price,
            close_side: side,
            close_price: price,
            pnl: p as i128,
        };
        assert(closed_ok(seq![ct] + r.1)) by {
            assert forall|i: int| 0 <= i < (seq![ct] + r.1).len() implies -pnl_bound() <= (
            #[trigger] (seq![ct] + r.1)[i]).pnl <= pnl_bound() by {
                if i > 0 {
                    assert((seq![ct] + r.1)[i] == r.1[i - 1]);
                }
            }
        }
    }
}

/// Matches a trade on `side` at `price` of `quantity` against `lots`,
/// appending each match to `closed`; returns the quantity left unmatched.
fn match_lots(lots: &mut Vec<Lot>, side: Side, price: u64, quantity: u64, closed: &mut Vec<ClosedTrade>) -> (rem: u64)
    requires
        lots_ok(old(lots)@),
        price <= MAX_PRICE,
        quantity <= MAX_QUANTITY,
    ensures
        final(lots)@ == fifo_match(old(lots)@, side, price, quantity as nat).0,
        final(closed)@ == old(closed)@ + fifo_match(old(lots)@, side, price, quantity as nat).1,
        rem as nat == fifo_match(old(lots)@, side, price, quantity as nat).2,
{
    let ghost full = fifo_match(lots@, side, price, quantity as nat);
    let ghost c0 = closed@;
    let ghost mut acc: Seq<ClosedTrade> = seq![];
    let mut rem = quantity;
    while rem > 0 && lots.len() > 0
        invariant
            lots_ok(lots@),
            rem <= MAX_QUANTITY,
            price <= MAX_PRICE,
            fifo_match(lots@, side, price, rem as nat).0 == full.0,
            fifo_match(lots@, side, price, rem as nat).2 == full.2,
            acc + fifo_match(lots@, side, price, rem as nat).1 == full.1,
            closed@ == c0 + acc,
        decreases lots@.len() + rem,
    {
        let open = lots[0];
        let m = if rem <= open.quantity { rem } else { open.quantity };
        proof {
            let p = match_pnl(side, open.price as int, price as int, m as int);
            assert(-pnl_bound() <= p <= pnl_bound()) by (nonlinear_arith)
                requires
                    p == match_pnl(side, open.price as int, price as int, m as int),
                    open.price <= MAX_PRICE,
                    price <= MAX_PRICE,
                    m <= MAX_QUANTITY,
            {
            }
        }
        let pnl: i128 = match side {
            Side::Buy => (open.price as i128 - price as i128) * (m as i128),
            Side::Sell => (price as i128 - open.price as i128) * (m as i128),
        };
        let ct = ClosedTrade {
            open_side: open.side,
            quantity: m,
            open_price: open.price,
            close_side: side,
            close_price: price,
            pnl,
        };
        let ghost before = lots@;
        let ghost rem0 = rem;
        closed.push(ct);
        if open.quantity == m {
            lots.remove(0);
        } else {
            lots.set(0, Lot { quantity: open.quantity - m, ..open });
        }
        rem = rem - m;
        proof {
            let r = fifo_match(lots@, side, price, rem as nat);
            assert(fifo_match(before, side, price, rem0 as nat).1 == seq![ct] + r.1);
            assert(acc.push(ct) + r.1 =~= acc + (seq![ct] + r.1));
            acc = acc.push(ct);
            assert(lots_ok(lots@));
        }
    }
    proof {
        assert(acc + seq![] =~= acc);
    }
    rem
}

pub proof fn lemma_lots_qty_push(lots: Seq<Lot>, l: Lot)
    ensures
        lots_qty(lots.push(l)) == lots_qty(lots) + l.quantity,
{
    assert(lots.push(l).drop_last() =~= lots);
}

/// Applying a trade keeps lots and matches within bounds and adds at most
/// the trade's quantity to the open quantity.
pub proof fn lemma_fifo_apply(lots: Seq<Lot>, t: Trade)
    requires
        lots_ok(lots),
        t.in_bounds(),
    ensures
        lots_ok(fifo_apply(lots, t).0),
        closed_ok(fifo_apply(lots, t).1),
        lots_qty(fifo_apply(lots, t).0) <= lots_qty(lots) + t.quantity,
{
    let new_lot = Lot { side: t.side, price: t.price, quantity: t.quantity };
    if lots.len() == 0 || lots[0].side == t.side {
        lemma_lots_qty_push(lots, new_lot);
        assert(lots_ok(lots.push(new_lot))) by {
            assert forall|i: int| 0 <= i < lots.len() + 1 implies (#[trigger] lots.push(new_lot)[i]).price <= MAX_PRICE
                && lots.push(new_lot)[i].quantity <= MAX_QUANTITY by {
                if i < lots.len() {
                    assert(lots.push(new_lot)[i] == lots[i]);
                }
            }
        }
    } else {
        lemma_fifo_match(lots, t.side, t.price, t.quantity as nat);
        let r = fifo_match(lots, t.side, t.price, t.quantity as nat);
        if r.2 > 0 {
            let l = Lot { quantity: r.2 as u64, ..new_lot };
            lemma_lots_qty_push(r.0, l);
            assert(lots_ok(r.0.push(l))) by {
                assert forall|i: int| 0 <= i < r.0.len() + 1 implies (#[trigger] r.0.push(l)[i]).price <= MAX_PRICE
                    && r.0.push(l)[i].quantity <= MAX_QUANTITY by {
                    if i < r.0.len() {
                        assert(r.0.push(l)[i] == r.0[i]);
                    }
                }
            }
        }
    }
}

/// The lots of a symbol that no trade carries are empty.
pub proof fn lemma_fifo_lots_absent(trades: Seq<Trade>, sym: Seq<char>)
    requires
        !symbols_of(trades).contains(sym),
    ensures
        fifo_lots(trades, sym) == Seq::<Lot>::empty(),
    decreases trades.len(),
{
    if trades.len() > 0 {
        let p = trades.drop_last();
        if symbols_of(p).contains(sym) {
            let j = choose|j: int| 0 <= j < symbols_of(p).len() && symbols_of(p)[j] == sym;
            if !symbols_of(p).contains(trades.last().symbol@) {
                assert(symbols_of(p).push(trades.last().symbol@)[j] == sym);
            }
        }
        if trades.last().symbol@ == sym {
            if !symbols_of(p).contains(sym) {
                assert(symbols_of(p).push(sym)[symbols_of(p).len() as int] == sym);
            }
        }
        lemma_fifo_lots_absent(p, sym);
    }
}

/// Every lot and match produced from trades in bounds is in bounds.
pub proof fn lemma_fifo_bounds(trades: Seq<Trade>, sym: Seq<char>)
    requires
        all_in_bounds(trades),
    ensures
        lots_ok(fifo_lots(trades, sym)),
        closed_ok(fifo_closed(trades)),
    decreases trades.len(),
{
    if trades.len() > 0 {
        let p = trades.drop_last();
        let t = trades.last();
        assert(all_in_bounds(p)) by {
            assert forall|i: int| 0 <= i < p.len() implies (#[trigger] p[i]).in_bounds() by {
                assert(p[i] == trades[i]);
            }
        }
        assert(t == trades[trades.len() - 1]);
        lemma_fifo_bounds(p, sym);
        lemma_fifo_bounds(p, t.symbol@);
        lemma_fifo_apply(fifo_lots(p, sym), t);
        lemma_fifo_apply(fifo_lots(p, t.symbol@), t);
        let a = fifo_closed(p);
        let b = fifo_apply(fifo_lots(p, t.symbol@), t).1;
        assert(closed_ok(a + b)) by {
            assert forall|i: int| 0 <= i < (a + b).len() implies -pnl_bound() <= (#[trigger] (a + b)[i]).pnl
                <= pnl_bound() by {
                if i < a.len() {
                    assert((a + b)[i] == a[i]);
                } else {
                    assert((a + b)[i] == b[i - a.len()]);
                }
            }
        }
    }
}

/// Total open quantity of the listed symbols.
pub open spec fn fifo_qty_of(trades: Seq<Trade>, syms: Seq<Seq<char>>) -> int
    decreases syms.len(),
{
    if syms.len() == 0 {
        0
    } else {
        fifo_qty_of(trades, syms.drop_last()) + lots_qty(fifo_lots(trades, syms.last()))
    }
}

pub proof fn lemma_lots_qty_nonneg(lots: Seq<Lot>)
    ensures
        lots_qty(lots) >= 0,
    decreases lots.len(),
{
    if lots.len() > 0 {
        lemma_lots_qty_nonneg(lots.drop_last());
    }
}

pub proof fn lemma_fifo_qty_prefix(trades: Seq<Trade>, syms: Seq<Seq<char>>, k: int)
    requires
        0 <= k <= syms.len(),
    ensures
        0 <= fifo_qty_of(trades, syms.subrange(0, k)) <= fifo_qty_of(trades, syms),
    decreases syms.len(),
{
    if syms.len() > 0 {
        lemma_lots_qty_nonneg(fifo_lots(trades, syms.last()));
        if k == syms.len() {
            assert(syms.subrange(0, k) =~= syms);
            lemma_fifo_qty_prefix(trades, syms.drop_last(), k - 1);
            assert(syms.drop_last().subrange(0, k - 1) =~= syms.drop_last());
        } else {
            lemma_fifo_qty_prefix(trades, syms.drop_last(), k);
            assert(syms.drop_last().subrange(0, k) =~= syms.subrange(0, k));
        }
    }
}

/// When only the lots of `sym` differ between two trade sequences, only its
/// term of the total open quantity changes.
pub proof fn lemma_fifo_qty_frame(t1: Seq<Trade>, t2: Seq<Trade>, syms: Seq<Seq<char>>, sym: Seq<char>)
    requires
        forall|i: int, j: int| 0 <= i < j < syms.len() ==> syms[i] != syms[j],
        forall|j: int| 0 <= j < syms.len() && syms[j] != sym ==> fifo_lots(t2, #[trigger] syms[j]) == fifo_lots(t1, syms[j]),
    ensures
        fifo_qty_of(t2, syms) == fifo_qty_of(t1, syms) + if syms.contains(sym) {
            lots_qty(fifo_lots(t2, sym)) - lots_qty(fifo_lots(t1, sym))
        } else {
            0
        },
    decreases syms.len(),
{
    if syms.len() > 0 {
        let d = syms.drop_last();
        assert forall|j: int| 0 <= j < d.len() && d[j] != sym implies fifo_lots(t2, #[trigger] d[j]) == fifo_lots(t1, d[j]) by {
            assert(d[j] == syms[j]);
        }
        lemma_fifo_qty_frame(t1, t2, d, sym);
        if syms.last() == sym {
            assert(syms[syms.len() - 1] == sym);
            if d.contains(sym) {
                let j = choose|j: int| 0 <= j < d.len() && d[j] == sym;
                assert(syms[j] == syms[syms.len() - 1]);
            }
        } else {
            assert(fifo_lots(t2, syms[syms.len() - 1]) == fifo_lots(t1, syms[syms.len() - 1]));
            if syms.contains(sym) {
                let j = choose|j: int| 0 <= j < syms.len() && syms[j] == sym;
                assert(d[j] == sym);
            }
            if d.contains(sym) {
                let j = choose|j: int| 0 <= j < d.len() && d[j] == sym;
                assert(syms[j] == sym);
            }
        }
    }
}

/// |value| of lots marked within bounds is at most the top price times the
/// open quantity, and |signed quantity| at most the open quantity.
pub proof fn lemma_lots_value_bound(lots: Seq<Lot>, mark: int)
    requires
        lots_ok(lots),
        0 <= mark <= MAX_PRICE,
    ensures
        -(MAX_PRICE as int) * lots_qty(lots) <= lots_value(lots, mark) <= MAX_PRICE as int * lots_qty(lots),
        -lots_qty(lots) <= lots_signed(lots) <= lots_qty(lots),
    decreases lots.len(),
{
    if lots.len() > 0 {
        let d = lots.drop_last();
        let l = lots.last();
        assert(lots_ok(d)) by {
            assert forall|i: int| 0 <= i < d.len() implies (#[trigger] d[i]).price <= MAX_PRICE
                && d[i].quantity <= MAX_QUANTITY by {
                assert(d[i] == lots[i]);
            }
        }
        assert(l == lots[lots.len() - 1]);
        lemma_lots_value_bound(d, mark);
        let v = match l.side {
            Side::Buy => (mark - l.price) * l.quantity,
            Side::Sell => (l.price - mark) * l.quantity,
        };
        assert(-(MAX_PRICE as int) * l.quantity <= v <= MAX_PRICE as int * l.quantity) by (nonlinear_arith)
            requires
                v == (mark - l.price) * l.quantity || v == (l.price - mark) * l.quantity,
                0 <= mark <= MAX_PRICE,
                0 <= l.price <= MAX_PRICE,
                0 <= l.quantity,
        {
        }
    }
}

/// Applies one trade to the open lots of its symbol, appending its matches
/// to `closed`.
fn apply_trade(lots: &mut Vec<Lot>, t: &Trade, closed: &mut Vec<ClosedTrade>)
    requires
        lots_ok(old(lots)@),
        t.in_bounds(),
    ensures
        final(lots)@ == fifo_apply(old(lots)@, *t).0,
        final(closed)@ == old(closed)@ + fifo_apply(old(lots)@, *t).1,
{
    let new_lot = Lot { side: t.side, price: t.price, quantity: t.quantity };
    if lots.len() == 0 || lots[0].side == t.side {
        lots.push(new_lot);
        assert(closed@ =~= closed@ + Seq::<ClosedTrade>::empty());
    } else {
        let rem = match_lots(lots, t.side, t.price, t.quantity, closed);
        if rem > 0 {
            lots.push(Lot { quantity: rem, ..new_lot });
        }
    }
}

/// Value and signed quantity of open lots marked at `mark`.
fn value_lots(lots: &Vec<Lot>, mark: u64) -> (r: (i128, i128))
    requires
        lots_ok(lots@),
        mark <= MAX_PRICE,
    ensures
        r.0 == lots_value(lots@, mark as int),
        r.1 == lots_signed(lots@),
{
    let mut value: i128 = 0;
    let mut signed: i128 = 0;
    let mut j: usize = 0;
    while j < lots.len()
        invariant
            j <= lots@.len(),
            lots_ok(lots@),
            mark <= MAX_PRICE,
            value == lots_value(lots@.subrange(0, j as int), mark as int),
            signed == lots_signed(lots@.subrange(0, j as int)),
            0 <= lots_qty(lots@.subrange(0, j as int)) <= MAX_QUANTITY as int * j,
        decreases lots@.len() - j,
    {
        let ghost pre = lots@.subrange(0, j as int);
        let ghost nxt = lots@.subrange(0, j + 1);
        proof {
            assert(nxt.drop_last() =~= pre);
            assert(nxt.last() == lots@[j as int]);
            assert(lots_ok(pre)) by {
                assert forall|i: int| 0 <= i < pre.len() implies (#[trigger] pre[i]).price <= MAX_PRICE
                    && pre[i].quantity <= MAX_QUANTITY by {
                    assert(pre[i] == lots@[i]);
                }
            }
            lemma_lots_value_bound(pre, mark as int);
            assert(j < 0x1_0000_0000_0000_0000);
            assert(MAX_PRICE as int * lots_qty(pre) <= MAX_PRICE as int * (MAX_QUANTITY as int * j)) by (nonlinear_arith)
                requires
                    lots_qty(pre) <= MAX_QUANTITY as int * j,
            {
            }
            assert(MAX_PRICE as int * (MAX_QUANTITY as int * j) <= 0x4000_0000_0000_0000 * 0x1_0000_0000_0000_0000) by (nonlinear_arith)
                requires
                    j < 0x1_0000_0000_0000_0000,
            {
            }
        }
        let l = lots[j];
        proof {
            assert(-(MAX_PRICE as int) * MAX_QUANTITY as int <= (mark - l.price) * l.quantity <= MAX_PRICE as int * MAX_QUANTITY as int) by (nonlinear_arith)
                requires
                    mark <= MAX_PRICE,
                    l.price <= MAX_PRICE,
                    l.quantity <= MAX_QUANTITY,
            {
            }
            assert(-(MAX_PRICE as int) * MAX_QUANTITY as int <= (l.price - mark) * l.quantity <= MAX_PRICE as int * MAX_QUANTITY as int) by (nonlinear_arith)
                requires
                    mark <= MAX_PRICE,
                    l.price <= MAX_PRICE,
                    l.quantity <= MAX_QUANTITY,
            {
            }
        }
        match l.side {
            Side::Buy => {
                value = value + (mark as i128 - l.price as i128) * (l.quantity as i128);
                signed = signed + l.quantity as i128;
            },
            Side::Sell => {
                value = value + (l.price as i128 - mark as i128) * (l.quantity as i128);
                signed = signed - l.quantity as i128;
            },
        }
        j = j + 1;
    }
    proof {
        assert(lots@.subrange(0, j as int) =~= lots@);
    }
    (value, signed)
}

/// Matches trades by symbol, oldest lot first.
pub struct FifoPnlProcessor;

impl FifoPnlProcessor {
    pub fn new() -> (r: FifoPnlProcessor) {
        FifoPnlProcessor
    }

    /// Realized pnl of the trades by FIFO lot matching, with the unrealized
    /// pnl and signed quantity of what stays open, each symbol marked at its
    /// last trade price.
    pub fn process_realized(&self, trades: &[Trade]) -> (r: PnLResult)
        requires
            all_in_bounds(trades@),
        ensures
            r.closed_trades@ == fifo_closed(trades@),
            r.total_pnl == sum_pnl(fifo_closed(trades@)),
            r.unrealized_pnl == fifo_unrealized(trades@),
            r.remaining_shares == fifo_remaining(trades@),
            r.total_fees == 0,
    {
        let mut symbols: Vec<String> = Vec::new();
        let mut books: Vec<Vec<Lot>> = Vec::new();
        let mut lasts: Vec<u64> = Vec::new();
        let mut closed: Vec<ClosedTrade> = Vec::new();
        let n: usize = trades.len();
        let mut i: usize = 0;
        while i < trades.len()
            invariant
                i <= trades@.len(),
                all_in_bounds(trades@),
                symbols@.len() == symbols_of(trades@.subrange(0, i as int)).len(),
                books@.len() == symbols@.len(),
                lasts@.len() == symbols@.len(),
                forall|k: int| 0 <= k < symbols@.len() ==> (#[trigger] symbols@[k])@ == symbols_of(trades@.subrange(0, i as int))[k],
                forall|k: int| 0 <= k < books@.len() ==> (#[trigger] books@[k])@ == fifo_lots(trades@.subrange(0, i as int), symbols@[k]@),
                forall|k: int| 0 <= k < lasts@.len() ==> (#[trigger] lasts@[k]) as int == last_price(trades@.subrange(0, i as int), symbols@[k]@),
                closed@ == fifo_closed(trades@.subrange(0, i as int)),
                fifo_qty_of(trades@.subrange(0, i as int), symbols_of(trades@.subrange(0, i as int))) <= MAX_QUANTITY as int * i,
            decreases trades@.len() - i,
        {
            let ghost pre = trades@.subrange(0, i as int);
            let ghost nxt = trades@.subrange(0, i + 1);
            let t = &trades[i];
            proof {
                assert(nxt.drop_last() =~= pre);
                assert(nxt.last() == *t);
                assert(t.in_bounds());
                lemma_symbols_distinct(pre);
                lemma_symbols_distinct(nxt);
            }
            let found = find_symbol(&symbols, &t.symbol);
            let k: usize = match found {
                Some(k) => {
                    proof {
                        assert(symbols_of(pre)[k as int] == t.symbol@);
                        assert(symbols_of(pre).contains(t.symbol@));
                    }
                    k
                },
                None => {
                    proof {
                        if symbols_of(pre).contains(t.symbol@) {
                            let j = choose|j: int| 0 <= j < symbols_of(pre).len() && symbols_of(pre)[j] == t.symbol@;
                            assert(symbols@[j]@ == t.symbol@);
                        }
                        lemma_fifo_lots_absent(pre, t.symbol@);
                    }
                    symbols.push(t.symbol.clone());
                    books.push(Vec::new());
                    lasts.push(0);
                    symbols.len() - 1
                },
            };
            proof {
                lemma_fifo_bounds(pre, t.symbol@);
                lemma_fifo_apply(fifo_lots(pre, t.symbol@), *t);
            }
            let mut lots = books.remove(k);
            apply_trade(&mut lots, t, &mut closed);
            books.insert(k, lots);
            lasts.set(k, t.price);
            i = i + 1;
            proof {
                let sp = symbols_of(pre);
                let sn = symbols_of(nxt);
                assert forall|j: int| 0 <= j < symbols@.len() implies (#[trigger] symbols@[j])@ == sn[j] by {
                    if j < sp.len() {
                        assert(sn[j] == sp[j]);
                    }
                }
                assert forall|j: int| 0 <= j < books@.len() implies (#[trigger] books@[j])@ == fifo_lots(nxt, symbols@[j]@) by {
                    if j != k {
                        assert(symbols@[j]@ != t.symbol@);
                    }
                }
                assert forall|j: int| 0 <= j < lasts@.len() implies (#[trigger] lasts@[j]) as int == last_price(nxt, symbols@[j]@) by {
                    if j != k {
                        assert(symbols@[j]@ != t.symbol@);
                    }
                }
                assert forall|j: int| 0 <= j < sp.len() && sp[j] != t.symbol@ implies fifo_lots(nxt, #[trigger] sp[j]) == fifo_lots(pre, sp[j]) by {
                }
                lemma_fifo_qty_frame(pre, nxt, sp, t.symbol@);
                if !sp.contains(t.symbol@) {
                    assert(sn == sp.push(t.symbol@));
                    assert(sn.drop_last() =~= sp);
                    assert(sn.last() == t.symbol@);
                    assert(lots_qty(fifo_lots(pre, t.symbol@)) == 0);
                }
            }
        }
        proof {
            assert(trades@.subrange(0, i as int) =~= trades@);
            lemma_fifo_bounds(trades@, Seq::<char>::empty());
        }
        let total_pnl = sum_closed(&closed);
        let ghost syms = symbols_of(trades@);
        let mut unrealized: i128 = 0;
        let mut remaining: i128 = 0;
        let mut k: usize = 0;
        while k < symbols.len()
            invariant
                k <= symbols@.len(),
                symbols@.len() == syms.len(),
                books@.len() == symbols@.len(),
                lasts@.len() == symbols@.len(),
                all_in_bounds(trades@),
                forall|j: int| 0 <= j < symbols@.len() ==> (#[trigger] symbols@[j])@ == syms[j],
                forall|j: int| 0 <= j < books@.len() ==> (#[trigger] books@[j])@ == fifo_lots(trades@, symbols@[j]@),
                forall|j: int| 0 <= j < lasts@.len() ==> (#[trigger] lasts@[j]) as int == last_price(trades@, symbols@[j]@),
                fifo_qty_of(trades@, syms) <= MAX_QUANTITY as int * trades@.len(),
                n == trades@.len(),
                unrealized == fifo_unrealized_of(trades@, syms.subrange(0, k as int)),
                remaining == fifo_remaining_of(trades@, syms.subrange(0, k as int)),
                -(MAX_PRICE as int) * fifo_qty_of(trades@, syms.subrange(0, k as int)) <= unrealized
                    <= MAX_PRICE as int * fifo_qty_of(trades@, syms.subrange(0, k as int)),
                -fifo_qty_of(trades@, syms.subrange(0, k as int)) <= remaining <= fifo_qty_of(trades@, syms.subrange(0, k as int)),
            decreases symbols@.len() - k,
        {
            let ghost s = syms[k as int];
            proof {
                let sub = syms.subrange(0, k + 1);
                assert(sub.drop_last() =~= syms.subrange(0, k as int));
                assert(sub.last() == s);
                lemma_fifo_bounds(trades@, s);
                lemma_last_price_bound(trades@, s);
                lemma_lots_value_bound(fifo_lots(trades@, s), last_price(trades@, s));
                lemma_fifo_qty_prefix(trades@, syms, k + 1);
                assert(trades@.len() < 0x1_0000_0000_0000_0000);
                assert(MAX_PRICE as int * fifo_qty_of(trades@, sub) <= MAX_PRICE as int * (MAX_QUANTITY as int * trades@.len())) by (nonlinear_arith)
                    requires
                        fifo_qty_of(trades@, sub) <= MAX_QUANTITY as int * trades@.len(),
                {
                }
                assert(MAX_PRICE as int * (MAX_QUANTITY as int * trades@.len()) <= 0x4000_0000_0000_0000 * 0x1_0000_0000_0000_0000) by (nonlinear_arith)
                    requires
                        trades@.len() < 0x1_0000_0000_0000_0000,
                {
                }
            }
            let (v, q) = value_lots(&books[k], lasts[k]);
            proof {
                let sub = syms.subrange(0, k + 1);
                let qp = fifo_qty_of(trades@, syms.subrange(0, k as int));
                let lq = lots_qty(fifo_lots(trades@, s));
                assert(fifo_qty_of(trades@, sub) == qp + lq);
                assert(-(MAX_PRICE as int) * (qp + lq) <= unrealized + v <= MAX_PRICE as int * (qp + lq)) by (nonlinear_arith)
                    requires
                        -(MAX_PRICE as int) * qp <= unrealized <= MAX_PRICE as int * qp,
                        -(MAX_PRICE as int) * lq <= v <= MAX_PRICE as int * lq,
                {
                }
            }
            unrealized = unrealized + v;
            remaining = remaining + q;
            k = k + 1;
        }
        proof {
            assert(syms.subrange(0, k as int) =~= syms);
        }
        PnLResult {
            total_pnl,
            unrealized_pnl: unrealized,
            closed_trades: closed,
            total_fees: 0,
            remaining_shares: remaining,
        }
    }
}

} // verus!
