//! Entry point of the accounting engine.
use vstd::prelude::*;
use crate::models::{ClosedTrade, PnLResult, Side, Trade, TradeStatus, MAX_PRICE, MAX_QUANTITY, all_in_bounds, sum_pnl};
use crate::pnl::fifo::{
    FifoPnlProcessor, Lot, fifo_apply, fifo_closed, fifo_lots, fifo_match, fifo_remaining,
    fifo_unrealized, match_pnl,
};
use crate::pnl::position::{
    PositionPnlProcessor, pos_after, pos_apply, pos_closed, pos_remaining, pos_unrealized,
};

verus! {

/// Lot-matching algorithm of an accounting run.
#[derive(Clone, Copy, Debug, PartialEq, Eq, Structural)]
pub enum PnlMethod {
    Fifo,
    Position,
}

impl PnlMethod {
    pub fn default_method() -> (r: PnlMethod)
        ensures
            r == PnlMethod::Fifo,
    {
        PnlMethod::Fifo
    }
}

/// The filled trades of a sequence, in order.
pub open spec fn filled_of(trades: Seq<Trade>) -> Seq<Trade>
    decreases trades.len(),
{
    if trades.len() == 0 {
        seq![]
    } else if trades.last().status == TradeStatus::Filled {
        filled_of(trades.drop_last()).push(trades.last())
    } else {
        filled_of(trades.drop_last())
    }
}

/// Closed trades of an accounting run over the filled trades.
pub open spec fn run_closed(trades: Seq<Trade>, method: PnlMethod) -> Seq<ClosedTrade> {
    match method {
        PnlMethod::Fifo => fifo_closed(filled_of(trades)),
        PnlMethod::Position => pos_closed(filled_of(trades)),
    }
}

/// Total realized pnl of an accounting run.
pub open spec fn run_total(trades: Seq<Trade>, method: PnlMethod) -> int {
    sum_pnl(run_closed(trades, method))
}

/// Unrealized pnl of an accounting run.
pub open spec fn run_unrealized(trades: Seq<Trade>, method: PnlMethod) -> int {
    match method {
        PnlMethod::Fifo => fifo_unrealized(filled_of(trades)),
        PnlMethod::Position => pos_unrealized(filled_of(trades)),
    }
}

/// Signed open quantity left by an accounting run.
pub open spec fn run_remaining(trades: Seq<Trade>, method: PnlMethod) -> int {
    match method {
        PnlMethod::Fifo => fifo_remaining(filled_of(trades)),
        PnlMethod::Position => pos_remaining(filled_of(trades)),
    }
}

/// The filled trades of `trades`.
pub fn filled_trades(trades: &[Trade]) -> (r: Vec<Trade>)
    ensures
        r@ == filled_of(trades@),
{
    let mut r: Vec<Trade> = Vec::new();
    let mut i: usize = 0;
    while i < trades.len()
        invariant
            i <= trades@.len(),
            r@ == filled_of(trades@.subrange(0, i as int)),
        decreases trades@.len() - i,
    {
        proof {
            assert(trades@.subrange(0, i + 1).drop_last() =~= trades@.subrange(0, i as int));
            assert(trades@.subrange(0, i + 1).last() == trades@[i as int]);
        }
        if trades[i].status == TradeStatus::Filled {
            r.push(trades[i].duplicate());
        }
        i = i + 1;
    }
    proof {
        assert(trades@.subrange(0, i as int) =~= trades@);
    }
    r
}

pub proof fn lemma_filled_in_bounds_len(trades: Seq<Trade>)
    ensures
        filled_of(trades).len() <= trades.len(),
    decreases trades.len(),
{
    if trades.len() > 0 {
        lemma_filled_in_bounds_len(trades.drop_last());
    }
}

pub proof fn lemma_filled_in_bounds(trades: Seq<Trade>)
    requires
        all_in_bounds(trades),
    ensures
        all_in_bounds(filled_of(trades)),
        filled_of(trades).len() <= trades.len(),
    decreases trades.len(),
{
    if trades.len() > 0 {
        let p = trades.drop_last();
        assert(all_in_bounds(p)) by {
            assert forall|i: int| 0 <= i < p.len() implies (#[trigger] p[i]).in_bounds() by {
                assert(p[i] == trades[i]);
            }
        }
        assert(trades.last() == trades[trades.len() - 1]);
        lemma_filled_in_bounds(p);
        let f = filled_of(p);
        if trades.last().status == TradeStatus::Filled {
            assert forall|i: int| 0 <= i < f.len() + 1 implies (#[trigger] f.push(trades.last())[i]).in_bounds() by {
                if i < f.len() {
                    assert(f.push(trades.last())[i] == f[i]);
                }
            }
        }
    }
}

/// Produces pnl reports from trade records.
pub struct PnlReport {
    pub fifo_processor: FifoPnlProcessor,
    pub position_processor: PositionPnlProcessor,
    /// Commission in millionths of traded notional.
    pub commission_ppm: u64,
}

impl PnlReport {
    /// A report with a commission of 300 millionths (0.03%) of notional.
    pub fn new() -> (r: PnlReport)
        ensures
            r.commission_ppm == 300,
    {
        PnlReport::with_commission(300)
    }

    pub fn with_commission(commission_ppm: u64) -> (r: PnlReport)
        ensures
            r.commission_ppm == commission_ppm,
    {
        PnlReport {
            fifo_processor: FifoPnlProcessor::new(),
            position_processor: PositionPnlProcessor::new(),
            commission_ppm,
        }
    }

    /// Accounts for the filled trades among `trades` by `method`; trades of
    /// any other status take no part. With no filled trade every figure is
    /// zero.
    pub fn calculate(&self, trades: &[Trade], method: PnlMethod) -> (r: PnLResult)
        requires
            all_in_bounds(trades@),
        ensures
            r.closed_trades@ == run_closed(trades@, method),
            r.total_pnl == run_total(trades@, method),
            r.unrealized_pnl == run_unrealized(trades@, method),
            r.remaining_shares == run_remaining(trades@, method),
            r.total_fees == 0,
            filled_of(trades@).len() == 0 ==> r.closed_trades@.len() == 0 && r.total_pnl == 0
                && r.unrealized_pnl == 0 && r.remaining_shares == 0,
    {
        let filled = filled_trades(trades);
        proof {
            lemma_filled_in_bounds(trades@);
        }
        if filled.len() == 0 {
            return PnLResult {
                total_pnl: 0,
                unrealized_pnl: 0,
                closed_trades: Vec::new(),
                total_fees: 0,
                remaining_shares: 0,
            };
        }
        match method {
            PnlMethod::Fifo => self.fifo_processor.process_realized(filled.as_slice()),
            PnlMethod::Position => self.position_processor.process_position(filled.as_slice()),
        }
    }
}

/// Accounting is a function of the trades and the method alone: equal
/// inputs give equal closed trades, realized and unrealized pnl, and open
/// quantity.
pub proof fn lemma_calculate_deterministic(t1: Seq<Trade>, t2: Seq<Trade>, method: PnlMethod)
    requires
        t1 == t2,
    ensures
        run_closed(t1, method) == run_closed(t2, method),
        run_total(t1, method) == run_total(t2, method),
        run_unrealized(t1, method) == run_unrealized(t2, method),
        run_remaining(t1, method) == run_remaining(t2, method),
{
}

/// Fills in pairs: each pair opens a position in a symbol and closes
/// exactly it on the other side.
pub open spec fn alternating_fills(trades: Seq<Trade>) -> bool {
    &&& trades.len() % 2 == 0
    &&& forall|i: int| 0 <= i < trades.len() ==> (#[trigger] trades[i]).status == TradeStatus::Filled
    &&& forall|k: int| 0 <= k < trades.len() / 2 ==> {
        let o = #[trigger] trades[2 * k];
        let c = trades[2 * k + 1];
        &&& o.symbol@ == c.symbol@
        &&& o.quantity == c.quantity
        &&& o.side != c.side
    }
}

pub proof fn lemma_filled_all(trades: Seq<Trade>)
    requires
        forall|i: int| 0 <= i < trades.len() ==> (#[trigger] trades[i]).status == TradeStatus::Filled,
    ensures
        filled_of(trades) == trades,
    decreases trades.len(),
{
    if trades.len() > 0 {
        let p = trades.drop_last();
        assert forall|i: int| 0 <= i < p.len() implies (#[trigger] p[i]).status == TradeStatus::Filled by {
            assert(p[i] == trades[i]);
        }
        lemma_filled_all(p);
        assert(trades.last() == trades[trades.len() - 1]);
        assert(p.push(trades.last()) =~= trades);
    }
}

/// Lots that hold nothing, all on one side.
pub open spec fn empty_lots(l: Seq<Lot>) -> bool {
    &&& forall|i: int| 0 <= i < l.len() ==> (#[trigger] l[i]).quantity == 0
    &&& forall|i: int| 0 <= i < l.len() ==> (#[trigger] l[i]).side == l[0].side
}

/// Every book holds nothing, and the two methods have realized the same
/// total.
pub open spec fn flat_and_equal(p: Seq<Trade>) -> bool {
    &&& forall|s: Seq<char>| #[trigger] empty_lots(fifo_lots(p, s))
    &&& forall|s: Seq<char>| (#[trigger] pos_after(p, s)).quantity == 0
    &&& sum_pnl(fifo_closed(p)) == sum_pnl(pos_closed(p))
}

pub proof fn lemma_sum_pnl_concat(a: Seq<ClosedTrade>, b: Seq<ClosedTrade>)
    ensures
        sum_pnl(a + b) == sum_pnl(a) + sum_pnl(b),
    decreases b.len(),
{
    if b.len() > 0 {
        lemma_sum_pnl_concat(a, b.drop_last());
        assert((a + b).drop_last() =~= a + b.drop_last());
        assert((a + b).last() == b.last());
    } else {
        assert(a + b =~= a);
    }
}

/// Matching first runs through lots that hold nothing, realizing nothing.
pub proof fn lemma_match_empty_prefix(z: Seq<Lot>, m: Seq<Lot>, side: Side, price: u64, rem: nat)
    requires
        forall|i: int| 0 <= i < z.len() ==> (#[trigger] z[i]).quantity == 0,
        rem > 0,
    ensures
        fifo_match(z + m, side, price, rem).0 == fifo_match(m, side, price, rem).0,
        fifo_match(z + m, side, price, rem).2 == fifo_match(m, side, price, rem).2,
        sum_pnl(fifo_match(z + m, side, price, rem).1) == sum_pnl(fifo_match(m, side, price, rem).1),
    decreases z.len(),
{
    if z.len() == 0 {
        assert(z + m =~= m);
    } else {
        let zm = z + m;
        assert(zm[0] == z[0]);
        assert(zm.drop_first() =~= z.drop_first() + m);
        assert forall|i: int| 0 <= i < z.drop_first().len() implies (#[trigger] z.drop_first()[i]).quantity == 0 by {
            assert(z.drop_first()[i] == z[i + 1]);
        }
        lemma_match_empty_prefix(z.drop_first(), m, side, price, rem);
        let r = fifo_match(zm.drop_first(), side, price, rem);
        assert(zm[0].quantity == 0);
        assert(match_pnl(side, zm[0].price as int, price as int, 0) == 0);
        let ct = ClosedTrade {
            open_side: zm[0].side,
            quantity: 0,
            open_price: zm[0].price,
            close_side: side,
            close_price: price,
            pnl: 0,
        };
        assert(fifo_match(zm, side, price, rem).1 == seq![ct] + r.1);
        lemma_sum_pnl_concat(seq![ct], r.1);
        lemma_sum_single(ct);
    }
}

/// Pnl of closing `q` opened by `o` with `c`; nothing for a zero quantity.
pub open spec fn pair_pnl(o: Trade, c: Trade) -> int {
    if o.quantity == 0 {
        0
    } else {
        (match_pnl(c.side, o.price as int, c.price as int, o.quantity as int) as i128) as int
    }
}

pub proof fn lemma_sum_single(ct: ClosedTrade)
    ensures
        sum_pnl(seq![ct]) == ct.pnl,
{
    let s1 = seq![ct];
    assert(s1.len() == 1);
    assert(s1.drop_last() =~= Seq::<ClosedTrade>::empty());
    assert(sum_pnl(s1.drop_last()) == 0);
    assert(s1.last() == ct);
}

/// A pair on lots that hold nothing leaves lots that hold nothing and
/// realizes the pair's pnl.
pub proof fn lemma_pair_fifo(l0: Seq<Lot>, o: Trade, c: Trade)
    requires
        empty_lots(l0),
        o.quantity == c.quantity,
        o.side != c.side,
        o.in_bounds(),
        c.in_bounds(),
    ensures
        empty_lots(fifo_apply(fifo_apply(l0, o).0, c).0),
        sum_pnl(fifo_apply(l0, o).1) + sum_pnl(fifo_apply(fifo_apply(l0, o).0, c).1) == pair_pnl(o, c),
{
    let q = o.quantity;
    let lot = Lot { side: o.side, price: o.price, quantity: q };
    let l1 = fifo_apply(l0, o).0;
    let f1 = fifo_apply(l0, o).1;
    let l2 = fifo_apply(l1, c).0;
    let f2 = fifo_apply(l1, c).1;
    if q == 0 {
        if l0.len() == 0 || l0[0].side == o.side {
            assert(l1 == l0.push(lot));
            assert(l1[0].side == o.side);
            assert(l2 == l1);
            assert forall|i: int| 0 <= i < l2.len() implies (#[trigger] l2[i]).quantity == 0 by {
                if i < l0.len() {
                    assert(l2[i] == l0[i]);
                }
            }
            assert forall|i: int| 0 <= i < l2.len() implies (#[trigger] l2[i]).side == l2[0].side by {
                if i < l0.len() {
                    assert(l2[i] == l0[i]);
                }
            }
        } else {
            assert(l1 == l0);
            assert(l1[0].side == c.side);
            let lc = Lot { side: c.side, price: c.price, quantity: 0 };
            assert(l2 == l1.push(lc));
            assert forall|i: int| 0 <= i < l2.len() implies (#[trigger] l2[i]).quantity == 0 by {
                if i < l1.len() {
                    assert(l2[i] == l1[i]);
                }
            }
            assert forall|i: int| 0 <= i < l2.len() implies (#[trigger] l2[i]).side == l2[0].side by {
                if i < l1.len() {
                    assert(l2[i] == l1[i]);
                }
            }
        }
        assert(f1.len() == 0 && f2.len() == 0);
    } else {
        let single = seq![lot];
        assert(single.drop_first() =~= Seq::<Lot>::empty());
        assert(single[0] == lot);
        let ct = ClosedTrade {
            open_side: o.side,
            quantity: q,
            open_price: o.price,
            close_side: c.side,
            close_price: c.price,
            pnl: match_pnl(c.side, o.price as int, c.price as int, q as int) as i128,
        };
        assert(fifo_match(Seq::<Lot>::empty(), c.side, c.price, 0) == (Seq::<Lot>::empty(), Seq::<ClosedTrade>::empty(), 0nat));
        assert(fifo_match(single, c.side, c.price, q as nat) == (Seq::<Lot>::empty(), seq![ct] + Seq::<ClosedTrade>::empty(), 0nat));
        assert(seq![ct] + Seq::<ClosedTrade>::empty() =~= seq![ct]);
        lemma_sum_single(ct);
        if l0.len() == 0 || l0[0].side == o.side {
            assert(l1 == l0.push(lot));
            assert(f1.len() == 0);
            assert(l1[0].side == o.side);
            assert(l0.push(lot) =~= l0 + single);
            lemma_match_empty_prefix(l0, single, c.side, c.price, q as nat);
        } else {
            assert(l0 + Seq::<Lot>::empty() =~= l0);
            lemma_match_empty_prefix(l0, Seq::<Lot>::empty(), o.side, o.price, q as nat);
            assert(l1 == Seq::<Lot>::empty().push(Lot { quantity: q, ..lot }));
            assert(l1 =~= single);
            assert(Seq::<Lot>::empty() + single =~= single);
        }
    }
}

/// A pair on a flat position leaves it flat and realizes the pair's pnl.
pub proof fn lemma_pair_pos(p0: crate::pnl::position::PositionInfo, o: Trade, c: Trade)
    requires
        p0.quantity == 0,
        o.quantity == c.quantity,
        o.side != c.side,
        o.in_bounds(),
        c.in_bounds(),
    ensures
        pos_apply(pos_apply(p0, o).0, c).0.quantity == 0,
        sum_pnl(pos_apply(p0, o).1) + sum_pnl(pos_apply(pos_apply(p0, o).0, c).1) == pair_pnl(o, c),
{
    let a = pos_apply(p0, o);
    let b = pos_apply(a.0, c);
    assert(a.1.len() == 0);
    if o.quantity == 0 {
        assert(b.1.len() == 0);
    } else {
        assert(b.1.len() == 1);
        assert(b.1 =~= seq![b.1[0]]);
        lemma_sum_single(b.1[0]);
        let q = o.quantity as int;
        let cost = o.price as int * q;
        assert(a.0.total_cost == cost) by {
            assert(0 <= cost <= MAX_PRICE as int * MAX_QUANTITY as int) by (nonlinear_arith)
                requires
                    cost == o.price as int * q,
                    o.price <= MAX_PRICE,
                    0 <= q <= MAX_QUANTITY,
            {
            }
        }
        vstd::arithmetic::div_mod::lemma_div_multiples_vanish(cost, q);
        assert(cost * q == q * cost) by (nonlinear_arith);
        assert(c.price as int * q - cost == (c.price - o.price) * q) by (nonlinear_arith)
            requires
                cost == o.price as int * q,
        {
        }
        assert(cost - c.price as int * q == (o.price - c.price) * q) by (nonlinear_arith)
            requires
                cost == o.price as int * q,
        {
        }
        if o.side == Side::Buy {
            assert(c.side == Side::Sell);
        } else {
            assert(c.side == Side::Buy);
        }
    }
}

/// After each whole pair of an alternating sequence every book holds
/// nothing and the two methods have realized the same total.
pub proof fn lemma_alternating_prefix(trades: Seq<Trade>, k: int)
    requires
        alternating_fills(trades),
        all_in_bounds(trades),
        0 <= k <= trades.len() / 2,
    ensures
        flat_and_equal(trades.subrange(0, 2 * k)),
    decreases k,
{
    if k == 0 {
        let e = trades.subrange(0, 0);
        assert(e.len() == 0);
        assert forall|s: Seq<char>| #[trigger] empty_lots(fifo_lots(e, s)) by {}
        assert forall|s: Seq<char>| (#[trigger] pos_after(e, s)).quantity == 0 by {}
    } else {
        lemma_alternating_prefix(trades, k - 1);
        let p = trades.subrange(0, 2 * k - 2);
        let p1 = trades.subrange(0, 2 * k - 1);
        let p2 = trades.subrange(0, 2 * k);
        let o = trades[2 * (k - 1)];
        let c = trades[2 * (k - 1) + 1];
        assert(p1.drop_last() =~= p);
        assert(p2.drop_last() =~= p1);
        assert(p1.last() == o);
        assert(p2.last() == c);
        assert(o.in_bounds() && c.in_bounds());
        let sym = o.symbol@;
        assert(empty_lots(fifo_lots(p, sym)));
        assert(pos_after(p, sym).quantity == 0);
        lemma_pair_fifo(fifo_lots(p, sym), o, c);
        lemma_pair_pos(pos_after(p, sym), o, c);
        let f1 = fifo_apply(fifo_lots(p, sym), o).1;
        let f2 = fifo_apply(fifo_lots(p1, sym), c).1;
        let po = pos_apply(pos_after(p, sym), o).1;
        let pc = pos_apply(pos_after(p1, sym), c).1;
        lemma_sum_pnl_concat(fifo_closed(p), f1);
        lemma_sum_pnl_concat(fifo_closed(p1), f2);
        lemma_sum_pnl_concat(pos_closed(p), po);
        lemma_sum_pnl_concat(pos_closed(p1), pc);
        assert forall|s: Seq<char>| #[trigger] empty_lots(fifo_lots(p2, s)) by {
            if s != sym {
                assert(fifo_lots(p1, s) == fifo_lots(p, s));
            }
        }
        assert forall|s: Seq<char>| (#[trigger] pos_after(p2, s)).quantity == 0 by {
            if s != sym {
                assert(pos_after(p1, s) == pos_after(p, s));
            }
        }
    }
}

/// For strictly alternating fills (open, then close exactly that position,
/// repeated) FIFO and average-cost accounting realize the same total.
pub proof fn lemma_alternating_methods_agree(trades: Seq<Trade>)
    requires
        alternating_fills(trades),
        all_in_bounds(trades),
    ensures
        run_total(trades, PnlMethod::Fifo) == run_total(trades, PnlMethod::Position),
{
    lemma_filled_all(trades);
    lemma_alternating_prefix(trades, (trades.len() / 2) as int);
    assert(trades.subrange(0, 2 * ((trades.len() / 2) as int)) =~= trades);
}

} // verus!
