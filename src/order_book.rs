//! Order-book snapshots and the values derived from them.
use vstd::prelude::*;
use crate::models::{MAX_PRICE, MAX_QUANTITY};

verus! {

/// Number of levels on each side that depth figures look at.
pub const TOP_LEVELS: usize = 5;

/// Denominator of ratios given in millionths.
pub const PPM: i128 = 1000000;

/// `a / b` rounded down, for a positive `b`.
pub fn floor_div(a: i128, b: i128) -> (r: i128)
    requires
        b > 0,
        a > i128::MIN,
    ensures
        r == a / b,
{
    if a >= 0 {
        let q = (a as u128 / b as u128) as i128;
        proof {
            vstd::arithmetic::div_mod::lemma_div_pos_is_pos(a as int, b as int);
            vstd::arithmetic::div_mod::lemma_div_is_ordered_by_denominator(a as int, 1, b as int);
        }
        q
    } else {
        let c = (-a) as u128;
        let q = c / b as u128;
        let m = c % b as u128;
        proof {
            vstd::arithmetic::div_mod::lemma_fundamental_div_mod(c as int, b as int);
            vstd::arithmetic::div_mod::lemma_div_pos_is_pos(c as int, b as int);
            vstd::arithmetic::div_mod::lemma_div_is_ordered_by_denominator(c as int, 1, b as int);
            if m == 0 {
                assert(a == (-(q as int)) * b + 0) by (nonlinear_arith)
                    requires
                        c == b * q + m,
                        m == 0,
                        a == -c,
                {
                }
                vstd::arithmetic::div_mod::lemma_fundamental_div_mod_converse(a as int, b as int, -(q as int), 0);
            } else {
                assert(a == (-(q as int) - 1) * b + (b - m)) by (nonlinear_arith)
                    requires
                        c == b * q + m,
                        a == -c,
                {
                }
                vstd::arithmetic::div_mod::lemma_fundamental_div_mod_converse(a as int, b as int, -(q as int) - 1, b - m);
            }
        }
        if m == 0 {
            -(q as i128)
        } else {
            -(q as i128) - 1
        }
    }
}

/// Total quantity of price levels.
pub open spec fn level_qty(levels: Seq<(u64, u64)>) -> int
    decreases levels.len(),
{
    if levels.len() == 0 {
        0
    } else {
        level_qty(levels.drop_last()) + levels.last().1
    }
}

/// Number of top levels counted on a side.
pub open spec fn top_count(levels: Seq<(u64, u64)>) -> int {
    if levels.len() < TOP_LEVELS { levels.len() as int } else { TOP_LEVELS as int }
}

/// Total quantity of the top levels of a side.
pub open spec fn top_qty(levels: Seq<(u64, u64)>) -> int {
    level_qty(levels.subrange(0, top_count(levels)))
}

/// Total quantity of the top levels of a side.
pub fn top_volume(levels: &Vec<(u64, u64)>) -> (r: u128)
    requires
        forall|i: int| 0 <= i < levels@.len() ==> (#[trigger] levels@[i]).1 <= MAX_QUANTITY,
    ensures
        r == top_qty(levels@),
        r <= TOP_LEVELS * MAX_QUANTITY,
{
    let n: usize = if levels.len() < TOP_LEVELS { levels.len() } else { TOP_LEVELS };
    let mut sum: u128 = 0;
    let mut i: usize = 0;
    while i < n
        invariant
            i <= n,
            n == top_count(levels@),
            n <= levels@.len(),
            forall|j: int| 0 <= j < levels@.len() ==> (#[trigger] levels@[j]).1 <= MAX_QUANTITY,
            sum == level_qty(levels@.subrange(0, i as int)),
            sum <= i * MAX_QUANTITY,
        decreases n - i,
    {
        proof {
            assert(levels@.subrange(0, i + 1).drop_last() =~= levels@.subrange(0, i as int));
            assert(levels@.subrange(0, i + 1).last() == levels@[i as int]);
        }
        sum = sum + levels[i].1 as u128;
        i = i + 1;
    }
    sum
}

/// A copy of price levels.
fn copy_levels(v: &Vec<(u64, u64)>) -> (r: Vec<(u64, u64)>)
    ensures
        r@ == v@,
{
    let mut r: Vec<(u64, u64)> = Vec::new();
    let mut i: usize = 0;
    while i < v.len()
        invariant
            i <= v@.len(),
            r@ == v@.subrange(0, i as int),
        decreases v@.len() - i,
    {
        r.push(v[i]);
        i = i + 1;
        proof {
            assert(r@ =~= v@.subrange(0, i as int));
        }
    }
    proof {
        assert(v@.subrange(0, i as int) =~= v@);
    }
    r
}

/// A snapshot of an order book: bids best (highest) first, asks best
/// (lowest) first, each level a (price, quantity) pair.
#[derive(Clone, Debug)]
pub struct OrderBook {
    pub bids: Vec<(u64, u64)>,
    pub asks: Vec<(u64, u64)>,
    pub current_time: i64,
}

/// Every level of a side lies within the accepted bounds.
pub open spec fn levels_ok(levels: Seq<(u64, u64)>) -> bool {
    forall|i: int| 0 <= i < levels.len() ==> (#[trigger] levels[i]).0 <= MAX_PRICE && levels[i].1 <= MAX_QUANTITY
}

/// Mid price: the mean of best bid and best ask, rounded down; zero when a
/// side is empty.
pub open spec fn mid_of(bids: Seq<(u64, u64)>, asks: Seq<(u64, u64)>) -> int {
    if bids.len() == 0 || asks.len() == 0 {
        0
    } else {
        (bids[0].0 + asks[0].0) / 2
    }
}

/// Top-level imbalance in millionths, rounded down: (bid - ask) / (bid + ask)
/// over the top levels; zero when a side is empty or both are without volume.
pub open spec fn imbalance_of(bids: Seq<(u64, u64)>, asks: Seq<(u64, u64)>) -> int {
    if bids.len() == 0 || asks.len() == 0 || top_qty(bids) + top_qty(asks) == 0 {
        0
    } else {
        (top_qty(bids) - top_qty(asks)) * PPM / (top_qty(bids) + top_qty(asks))
    }
}

impl OrderBook {
    pub fn new(bids: Vec<(u64, u64)>, asks: Vec<(u64, u64)>, current_time: i64) -> (r: OrderBook)
        ensures
            r.bids@ == bids@,
            r.asks@ == asks@,
            r.current_time == current_time,
    {
        OrderBook { bids, asks, current_time }
    }

    /// A copy of the book.
    pub fn clone_book(&self) -> (r: OrderBook)
        ensures
            r.same_as(*self),
    {
        OrderBook { bids: copy_levels(&self.bids), asks: copy_levels(&self.asks), current_time: self.current_time }
    }

    /// Both books hold the same levels and time.
    pub open spec fn same_as(&self, other: OrderBook) -> bool {
        self.bids@ == other.bids@ && self.asks@ == other.asks@ && self.current_time == other.current_time
    }

    /// Prices and quantities lie within the accepted bounds.
    pub open spec fn in_bounds(&self) -> bool {
        levels_ok(self.bids@) && levels_ok(self.asks@)
    }

    /// Whether prices and quantities lie within the accepted bounds.
    pub fn is_in_bounds(&self) -> (r: bool)
        ensures
            r == self.in_bounds(),
    {
        let mut i: usize = 0;
        while i < self.bids.len()
            invariant
                i <= self.bids@.len(),
                forall|j: int| 0 <= j < i ==> (#[trigger] self.bids@[j]).0 <= MAX_PRICE && self.bids@[j].1 <= MAX_QUANTITY,
            decreases self.bids@.len() - i,
        {
            if self.bids[i].0 > MAX_PRICE || self.bids[i].1 > MAX_QUANTITY {
                return false;
            }
            i = i + 1;
        }
        let mut i: usize = 0;
        while i < self.asks.len()
            invariant
                i <= self.asks@.len(),
                levels_ok(self.bids@),
                forall|j: int| 0 <= j < i ==> (#[trigger] self.asks@[j]).0 <= MAX_PRICE && self.asks@[j].1 <= MAX_QUANTITY,
            decreases self.asks@.len() - i,
        {
            if self.asks[i].0 > MAX_PRICE || self.asks[i].1 > MAX_QUANTITY {
                return false;
            }
            i = i + 1;
        }
        true
    }

    pub fn mid_price(&self) -> (r: u64)
        requires
            self.in_bounds(),
        ensures
            r == mid_of(self.bids@, self.asks@),
    {
        if self.bids.len() == 0 || self.asks.len() == 0 {
            return 0;
        }
        (self.bids[0].0 + self.asks[0].0) / 2
    }

    /// Best ask minus best bid; zero when a side is empty.
    pub fn spread_abs(&self) -> (r: i128)
        requires
            self.in_bounds(),
        ensures
            r == if self.bids@.len() == 0 || self.asks@.len() == 0 {
                0
            } else {
                self.asks@[0].0 - self.bids@[0].0
            },
    {
        if self.bids.len() == 0 || self.asks.len() == 0 {
            return 0;
        }
        self.asks[0].0 as i128 - self.bids[0].0 as i128
    }

    /// Spread relative to the mid price, in millionths, rounded down; zero
    /// when the mid price is zero.
    pub fn spread_pct(&self) -> (r: i128)
        requires
            self.in_bounds(),
        ensures
            r == if mid_of(self.bids@, self.asks@) == 0 {
                0
            } else {
                (self.asks@[0].0 - self.bids@[0].0) * PPM / mid_of(self.bids@, self.asks@)
            },
    {
        let mid = self.mid_price();
        if mid == 0 {
            return 0;
        }
        floor_div(self.spread_abs() * PPM, mid as i128)
    }

    /// Top-level imbalance in millionths (see `imbalance_of`).
    pub fn order_book_imbalance(&self) -> (r: i128)
        requires
            self.in_bounds(),
        ensures
            r == imbalance_of(self.bids@, self.asks@),
    {
        if self.bids.len() == 0 || self.asks.len() == 0 {
            return 0;
        }
        let b = top_volume(&self.bids);
        let a = top_volume(&self.asks);
        if b + a == 0 {
            return 0;
        }
        floor_div((b as i128 - a as i128) * PPM, (b + a) as i128)
    }

    /// Mean quantity of the top bid levels, rounded down; zero with no bid.
    pub fn avg_top_bid_depth(&self) -> (r: u128)
        requires
            self.in_bounds(),
        ensures
            r == if self.bids@.len() == 0 {
                0
            } else {
                top_qty(self.bids@) / top_count(self.bids@)
            },
    {
        if self.bids.len() == 0 {
            return 0;
        }
        let n: usize = if self.bids.len() < TOP_LEVELS { self.bids.len() } else { TOP_LEVELS };
        top_volume(&self.bids) / n as u128
    }
}

} // verus!
