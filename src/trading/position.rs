//! Open positions by symbol, closed oldest first.
use vstd::prelude::*;
use crate::models::{Side, TradeError, MAX_PRICE, MAX_QUANTITY, signed_qty};

verus! {

/// Bound on the magnitude of a tracked net position.
pub const TRACK_LIMIT: i128 = 0x4000_0000_0000_0000;

/// An open lot of one symbol.
#[derive(Clone, Debug)]
pub struct Position {
    pub symbol: String,
    pub quantity: u64,
    pub entry_price: u64,
    pub side: Side,
    pub timestamp: i64,
}

impl Position {
    pub fn new(symbol: String, quantity: u64, entry_price: u64, side: Side, timestamp: i64) -> (r: Position)
        ensures
            r == (Position { symbol, quantity, entry_price, side, timestamp }),
    {
        Position { symbol, quantity, entry_price, side, timestamp }
    }

    /// A field-by-field copy.
    pub fn duplicate(&self) -> (r: Position)
        ensures
            r == *self,
    {
        Position {
            symbol: self.symbol.clone(),
            quantity: self.quantity,
            entry_price: self.entry_price,
            side: self.side,
            timestamp: self.timestamp,
        }
    }

    /// Milliseconds since the lot opened.
    pub fn get_age_ms(&self, current_time: i64) -> (r: i128)
        ensures
            r == current_time - self.timestamp,
    {
        current_time as i128 - self.timestamp as i128
    }

    /// Pnl of the lot at `current_price`.
    pub fn get_pnl(&self, current_price: u64) -> (r: i128)
        requires
            self.entry_price <= MAX_PRICE,
            self.quantity <= MAX_QUANTITY,
            current_price <= MAX_PRICE,
        ensures
            r == match self.side {
                Side::Buy => (current_price - self.entry_price) * self.quantity,
                Side::Sell => (self.entry_price - current_price) * self.quantity,
            },
    {
        proof {
            assert(-(MAX_PRICE as int) * MAX_QUANTITY <= (current_price - self.entry_price) * self.quantity <= MAX_PRICE as int * MAX_QUANTITY) by (nonlinear_arith)
                requires
                    self.entry_price <= MAX_PRICE,
                    self.quantity <= MAX_QUANTITY,
                    current_price <= MAX_PRICE,
            {
            }
            assert(-(MAX_PRICE as int) * MAX_QUANTITY <= (self.entry_price - current_price) * self.quantity <= MAX_PRICE as int * MAX_QUANTITY) by (nonlinear_arith)
                requires
                    self.entry_price <= MAX_PRICE,
                    self.quantity <= MAX_QUANTITY,
                    current_price <= MAX_PRICE,
            {
            }
        }
        match self.side {
            Side::Buy => (current_price as i128 - self.entry_price as i128) * self.quantity as i128,
            Side::Sell => (self.entry_price as i128 - current_price as i128) * self.quantity as i128,
        }
    }

    /// Price move in the lot's favour in basis points of the entry price,
    /// rounded down; zero for a zero entry price.
    pub fn get_pnl_bps(&self, current_price: u64) -> (r: i128)
        requires
            self.entry_price <= MAX_PRICE,
            current_price <= MAX_PRICE,
        ensures
            r == if self.entry_price == 0 {
                0
            } else {
                match self.side {
                    Side::Buy => (current_price - self.entry_price) * 10000 / (self.entry_price as int),
                    Side::Sell => (self.entry_price - current_price) * 10000 / (self.entry_price as int),
                }
            },
    {
        if self.entry_price == 0 {
            return 0;
        }
        let d: i128 = match self.side {
            Side::Buy => current_price as i128 - self.entry_price as i128,
            Side::Sell => self.entry_price as i128 - current_price as i128,
        };
        crate::order_book::floor_div(d * 10000, self.entry_price as i128)
    }
}

/// Index of the first entry for `sym`, or -1.
pub open spec fn first_symbol(syms: Seq<String>, sym: Seq<char>) -> int
    decreases syms.len(),
{
    if syms.len() == 0 {
        -1
    } else {
        let k = first_symbol(syms.drop_last(), sym);
        if k >= 0 { k } else if syms.last()@ == sym { syms.len() - 1 } else { -1 }
    }
}

pub proof fn lemma_first_symbol(syms: Seq<String>, k: int, sym: Seq<char>)
    requires
        0 <= k <= syms.len(),
        forall|j: int| 0 <= j < k ==> (#[trigger] syms[j])@ != sym,
    ensures
        k == syms.len() ==> first_symbol(syms, sym) == -1,
        k < syms.len() && syms[k]@ == sym ==> first_symbol(syms, sym) == k,
        -1 <= first_symbol(syms, sym) < syms.len(),
    decreases syms.len(),
{
    if syms.len() > 0 {
        let d = syms.drop_last();
        let kk = if k == syms.len() { k - 1 } else { k };
        assert forall|j: int| 0 <= j < kk implies (#[trigger] d[j])@ != sym by {
            assert(d[j] == syms[j]);
        }
        lemma_first_symbol(d, kk, sym);
        if k < syms.len() - 1 {
            assert(d[k] == syms[k]);
        }
    }
}

pub proof fn lemma_first_symbol_range(syms: Seq<String>, sym: Seq<char>)
    ensures
        -1 <= first_symbol(syms, sym) < syms.len(),
        first_symbol(syms, sym) >= 0 ==> syms[first_symbol(syms, sym)]@ == sym,
    decreases syms.len(),
{
    if syms.len() > 0 {
        lemma_first_symbol_range(syms.drop_last(), sym);
        let k = first_symbol(syms.drop_last(), sym);
        if k >= 0 {
            assert(syms.drop_last()[k] == syms[k]);
        }
    }
}

/// Lots closed by a trade on `side` of `rem`, and the lots kept: lots on
/// the other side are closed oldest first, the last one touched split.
pub open spec fn close_fifo(lots: Seq<Position>, side: Side, rem: int) -> (Seq<Position>, Seq<Position>)
    decreases lots.len(),
{
    if lots.len() == 0 || rem <= 0 {
        (lots, seq![])
    } else if lots[0].side != side {
        if lots[0].quantity <= rem {
            let r = close_fifo(lots.drop_first(), side, rem - lots[0].quantity);
            (r.0, seq![lots[0]] + r.1)
        } else {
            (
                seq![Position { quantity: (lots[0].quantity - rem) as u64, ..lots[0] }] + lots.drop_first(),
                seq![Position { quantity: rem as u64, ..lots[0] }],
            )
        }
    } else {
        let r = close_fifo(lots.drop_first(), side, rem);
        (seq![lots[0]] + r.0, r.1)
    }
}

/// Open lots and net position of each symbol, symbols in order of first
/// appearance.
pub struct PositionTracker {
    pub symbols: Vec<String>,
    pub positions: Vec<Vec<Position>>,
    pub net_positions: Vec<i128>,
}

impl PositionTracker {
    pub open spec fn wf(&self) -> bool {
        self.positions@.len() == self.symbols@.len() && self.net_positions@.len() == self.symbols@.len()
    }

    /// Open lots of `sym`.
    pub open spec fn lots_of(&self, sym: Seq<char>) -> Seq<Position> {
        let k = first_symbol(self.symbols@, sym);
        if k >= 0 { self.positions@[k]@ } else { seq![] }
    }

    /// Net position of `sym`: long positive.
    pub open spec fn net_of(&self, sym: Seq<char>) -> int {
        let k = first_symbol(self.symbols@, sym);
        if k >= 0 { self.net_positions@[k] as int } else { 0 }
    }

    /// Whether `sym` has an entry.
    pub open spec fn tracks(&self, sym: Seq<char>) -> bool {
        first_symbol(self.symbols@, sym) >= 0
    }

    pub fn new() -> (r: PositionTracker)
        ensures
            r.wf(),
            forall|s: Seq<char>| !r.tracks(s),
    {
        PositionTracker { symbols: Vec::new(), positions: Vec::new(), net_positions: Vec::new() }
    }

    fn find(&self, symbol: &String) -> (r: Option<usize>)
        requires
            self.wf(),
        ensures
            match r {
                Some(k) => k as int == first_symbol(self.symbols@, symbol@) && k < self.symbols@.len(),
                None => first_symbol(self.symbols@, symbol@) == -1,
            },
    {
        let mut k: usize = 0;
        while k < self.symbols.len()
            invariant
                k <= self.symbols@.len(),
                forall|j: int| 0 <= j < k ==> (#[trigger] self.symbols@[j])@ != symbol@,
            decreases self.symbols@.len() - k,
        {
            if self.symbols[k] == *symbol {
                proof {
                    lemma_first_symbol(self.symbols@, k as int, symbol@);
                }
                return Some(k);
            }
            k = k + 1;
        }
        proof {
            lemma_first_symbol(self.symbols@, k as int, symbol@);
        }
        None
    }

    /// Adds a lot to its symbol and moves the symbol's net position by its
    /// signed quantity.
    pub fn add_position(&mut self, position: Position)
        requires
            old(self).wf(),
            -TRACK_LIMIT <= old(self).net_of(position.symbol@) + signed_qty(position.side, position.quantity as int) <= TRACK_LIMIT,
        ensures
            final(self).wf(),
            forall|s: Seq<char>| #[trigger] final(self).lots_of(s) == if s == position.symbol@ {
                old(self).lots_of(s).push(position)
            } else {
                old(self).lots_of(s)
            },
            forall|s: Seq<char>| #[trigger] final(self).net_of(s) == if s == position.symbol@ {
                old(self).net_of(s) + signed_qty(position.side, position.quantity as int)
            } else {
                old(self).net_of(s)
            },
            forall|s: Seq<char>| #[trigger] final(self).tracks(s) == (old(self).tracks(s) || s == position.symbol@),
    {
        let ghost old_syms = self.symbols@;
        let ghost sym = position.symbol@;
        let delta: i128 = match position.side {
            Side::Buy => position.quantity as i128,
            Side::Sell => -(position.quantity as i128),
        };
        let k = match self.find(&position.symbol) {
            Some(k) => k,
            None => {
                self.symbols.push(position.symbol.clone());
                self.positions.push(Vec::new());
                self.net_positions.push(0);
                proof {
                    let ns = self.symbols@;
                    assert(ns.drop_last() =~= old_syms);
                    assert forall|s: Seq<char>| s != sym implies #[trigger] first_symbol(ns, s) == first_symbol(old_syms, s) by {
                        if first_symbol(old_syms, s) < 0 {
                            assert(ns.last()@ == sym);
                        }
                    }
                    assert(first_symbol(ns, sym) == old_syms.len());
                }
                self.symbols.len() - 1
            },
        };
        let ghost k0 = k as int;
        let ghost syms = self.symbols@;
        let ghost mid_pos = self.positions@;
        let ghost mid_net = self.net_positions@;
        proof {
            assert(first_symbol(syms, sym) == k0);
            assert forall|s: Seq<char>| s != sym implies #[trigger] first_symbol(syms, s) == first_symbol(old_syms, s)
                && (first_symbol(syms, s) >= 0 ==> mid_pos[first_symbol(syms, s)]@ == old(self).positions@[first_symbol(old_syms, s)]@
                && mid_net[first_symbol(syms, s)] == old(self).net_positions@[first_symbol(old_syms, s)]) by {
                lemma_first_symbol_range(old_syms, s);
                if syms.len() > old_syms.len() {
                    assert(syms.drop_last() =~= old_syms);
                    if first_symbol(old_syms, s) < 0 {
                        assert(syms.last()@ == sym);
                    }
                }
            }
        }
        let mut lots = self.positions.remove(k);
        lots.push(position);
        self.positions.insert(k, lots);
        let n = self.net_positions[k];
        self.net_positions.set(k, n + delta);
        proof {
            assert forall|s: Seq<char>| #[trigger] self.lots_of(s) == if s == sym { old(self).lots_of(s).push(position) } else { old(self).lots_of(s) } by {
                if s != sym {
                    let j = first_symbol(syms, s);
                    lemma_first_symbol_range(syms, s);
                    lemma_first_symbol_range(syms, sym);
                    if j >= 0 {
                        assert(j != k0);
                        assert(self.positions@[j] == mid_pos[j]);
                    }
                } else {
                    if old(self).tracks(sym) {
                        lemma_first_symbol_range(old_syms, sym);
                    } else {
                        assert(mid_pos[k0]@ == Seq::<Position>::empty());
                    }
                }
            }
            assert forall|s: Seq<char>| #[trigger] self.net_of(s) == if s == sym { old(self).net_of(s) + signed_qty(position.side, position.quantity as int) } else { old(self).net_of(s) } by {
                if s != sym {
                    let j = first_symbol(syms, s);
                    lemma_first_symbol_range(syms, s);
                    lemma_first_symbol_range(syms, sym);
                    if j >= 0 {
                        assert(j != k0);
                    }
                } else {
                    if old(self).tracks(sym) {
                        lemma_first_symbol_range(old_syms, sym);
                    }
                }
            }
            assert forall|s: Seq<char>| #[trigger] self.tracks(s) == (old(self).tracks(s) || s == sym) by {
                if s != sym {
                    assert(first_symbol(syms, s) == first_symbol(old_syms, s));
                }
            }
        }
    }

    /// Closes `quantity` of the lots of `symbol` against a trade on `side`:
    /// lots on the other side are closed oldest first, the last touched split.
    /// Gives the closed parts; the net position moves by the trade's signed
    /// quantity. An untracked symbol is `TradeNotFound` and changes nothing.
    pub fn close_position(&mut self, symbol: &String, quantity: u64, side: Side) -> (r: Result<Vec<Position>, TradeError>)
        requires
            old(self).wf(),
            -TRACK_LIMIT <= old(self).net_of(symbol@) + signed_qty(side, quantity as int) <= TRACK_LIMIT,
        ensures
            final(self).wf(),
            !old(self).tracks(symbol@) ==> (r matches Err(e) && e is TradeNotFound && *final(self) == *old(self)),
            old(self).tracks(symbol@) ==> r is Ok,
            r matches Ok(v) ==> v@ == close_fifo(old(self).lots_of(symbol@), side, quantity as int).1
                && final(self).lots_of(symbol@) == close_fifo(old(self).lots_of(symbol@), side, quantity as int).0
                && final(self).net_of(symbol@) == old(self).net_of(symbol@) + signed_qty(side, quantity as int),
            forall|s: Seq<char>| s != symbol@ ==> #[trigger] final(self).lots_of(s) == old(self).lots_of(s)
                && final(self).net_of(s) == old(self).net_of(s),
            forall|s: Seq<char>| #[trigger] final(self).tracks(s) == old(self).tracks(s),
    {
        let k = match self.find(symbol) {
            Some(k) => k,
            None => {
                return Err(TradeError::TradeNotFound(String::from_str("no positions for symbol")));
            },
        };
        let ghost syms = self.symbols@;
        let ghost pos0 = self.positions@;
        let lots = self.positions.remove(k);
        let ghost ls = lots@;
        let ghost target = close_fifo(ls, side, quantity as int);
        let mut kept: Vec<Position> = Vec::new();
        let mut closed: Vec<Position> = Vec::new();
        let mut rem: u64 = quantity;
        let mut i: usize = 0;
        proof {
            assert(ls.subrange(0, ls.len() as int) =~= ls);
        }
        while i < lots.len()
            invariant
                i <= ls.len(),
                ls == lots@,
                kept@ + close_fifo(ls.subrange(i as int, ls.len() as int), side, rem as int).0 == target.0,
                closed@ + close_fifo(ls.subrange(i as int, ls.len() as int), side, rem as int).1 == target.1,
            decreases ls.len() - i,
        {
            let ghost suf = ls.subrange(i as int, ls.len() as int);
            let ghost rest = ls.subrange(i + 1, ls.len() as int);
            let l = lots[i].duplicate();
            proof {
                assert(suf[0] == l);
                assert(suf.drop_first() =~= rest);
            }
            if rem > 0 && l.side != side {
                if l.quantity <= rem {
                    rem = rem - l.quantity;
                    closed.push(l);
                    proof {
                        let r = close_fifo(rest, side, rem as int);
                        assert(closed@ + r.1 =~= closed@.drop_last() + (seq![l] + r.1));
                    }
                } else {
                    let part = Position { quantity: rem, ..lots[i].duplicate() };
                    let left = Position { quantity: l.quantity - rem, ..l };
                    proof {
                        assert(close_fifo(rest, side, 0) == (rest, Seq::<Position>::empty()));
                        assert(kept@.push(left) + rest =~= kept@ + (seq![left] + rest));
                        assert(closed@.push(part) + Seq::<Position>::empty() =~= closed@ + seq![part]);
                    }
                    kept.push(left);
                    closed.push(part);
                    rem = 0;
                }
            } else {
                kept.push(l);
                proof {
                    if rem == 0 {
                        assert(close_fifo(suf, side, 0) == (suf, Seq::<Position>::empty()));
                        assert(close_fifo(rest, side, 0) == (rest, Seq::<Position>::empty()));
                        assert(suf =~= seq![l] + rest);
                    }
                    let r = close_fifo(rest, side, rem as int);
                    assert(kept@ + r.0 =~= kept@.drop_last() + (seq![l] + r.0));
                }
            }
            i = i + 1;
        }
        proof {
            assert(ls.subrange(i as int, ls.len() as int) =~= Seq::<Position>::empty());
            assert(kept@ + Seq::<Position>::empty() =~= kept@);
            assert(closed@ + Seq::<Position>::empty() =~= closed@);
        }
        self.positions.insert(k, kept);
        let n = self.net_positions[k];
        let delta: i128 = match side {
            Side::Buy => quantity as i128,
            Side::Sell => -(quantity as i128),
        };
        self.net_positions.set(k, n + delta);
        proof {
            lemma_first_symbol_range(syms, symbol@);
            assert(self.positions@ =~= pos0.update(k as int, kept));
            assert forall|s: Seq<char>| s != symbol@ implies #[trigger] self.lots_of(s) == old(self).lots_of(s)
                && self.net_of(s) == old(self).net_of(s) by {
                lemma_first_symbol_range(syms, s);
            }
        }
        Ok(closed)
    }

    /// Net position of `symbol`; zero when untracked.
    pub fn get_net_position(&self, symbol: &String) -> (r: i128)
        requires
            self.wf(),
        ensures
            r == self.net_of(symbol@),
    {
        match self.find(symbol) {
            Some(k) => self.net_positions[k],
            None => 0,
        }
    }

    /// Open lots of `symbol`, if tracked.
    pub fn get_positions(&self, symbol: &String) -> (r: Option<&Vec<Position>>)
        requires
            self.wf(),
        ensures
            r is Some <==> self.tracks(symbol@),
            r matches Some(v) ==> v@ == self.lots_of(symbol@),
    {
        match self.find(symbol) {
            Some(k) => Some(&self.positions[k]),
            None => None,
        }
    }

    /// Every tracked symbol with its open lots.
    pub fn get_all_positions(&self) -> (r: (&Vec<String>, &Vec<Vec<Position>>))
        ensures
            r.0@ == self.symbols@,
            r.1@ == self.positions@,
    {
        (&self.symbols, &self.positions)
    }

    /// Mean entry price of the open lots of `symbol`, weighted by quantity
    /// and rounded down; zero without open quantity.
    pub fn calculate_average_entry_price(&self, symbol: &String) -> (r: u64)
        requires
            self.wf(),
            forall|i: int| 0 <= i < self.lots_of(symbol@).len() ==> (#[trigger] self.lots_of(symbol@)[i]).entry_price <= MAX_PRICE
                && self.lots_of(symbol@)[i].quantity <= MAX_QUANTITY,
            self.lots_of(symbol@).len() <= 0x1_0000_0000,
        ensures
            r == avg_price_of(self.lots_of(symbol@)),
    {
        let k = match self.find(symbol) {
            Some(k) => k,
            None => return 0,
        };
        let lots = &self.positions[k];
        let ghost ls = lots@;
        let mut tv: u128 = 0;
        let mut tq: u128 = 0;
        let mut i: usize = 0;
        while i < lots.len()
            invariant
                i <= ls.len(),
                ls == lots@,
                ls.len() <= 0x1_0000_0000,
                forall|j: int| 0 <= j < ls.len() ==> (#[trigger] ls[j]).entry_price <= MAX_PRICE && ls[j].quantity <= MAX_QUANTITY,
                tv == value_of(ls.subrange(0, i as int)),
                tq == qty_of(ls.subrange(0, i as int)),
                tq <= MAX_QUANTITY as int * i,
                tv <= MAX_PRICE as int * MAX_QUANTITY as int * i,
            decreases ls.len() - i,
        {
            proof {
                assert(ls.subrange(0, i + 1).drop_last() =~= ls.subrange(0, i as int));
                assert(ls.subrange(0, i + 1).last() == ls[i as int]);
                let l = ls[i as int];
                assert(l.entry_price as int * l.quantity as int <= MAX_PRICE as int * MAX_QUANTITY as int) by (nonlinear_arith)
                    requires
                        l.entry_price <= MAX_PRICE,
                        l.quantity <= MAX_QUANTITY,
                {
                }
                assert(MAX_PRICE as int * MAX_QUANTITY as int * (i + 1) == MAX_PRICE as int * MAX_QUANTITY as int * i + MAX_PRICE as int * MAX_QUANTITY as int) by (nonlinear_arith);
                assert(MAX_PRICE as int * MAX_QUANTITY as int * (i + 1) <= MAX_PRICE as int * MAX_QUANTITY as int * 0x1_0000_0000) by (nonlinear_arith)
                    requires
                        i < 0x1_0000_0000,
                {
                }
                assert(MAX_QUANTITY as int * (i + 1) == MAX_QUANTITY as int * i + MAX_QUANTITY as int) by (nonlinear_arith);
                assert(MAX_QUANTITY as int * (i + 1) <= MAX_QUANTITY as int * 0x1_0000_0000) by (nonlinear_arith)
                    requires
                        i < 0x1_0000_0000,
                {
                }
            }
            tv = tv + lots[i].entry_price as u128 * lots[i].quantity as u128;
            tq = tq + lots[i].quantity as u128;
            i = i + 1;
        }
        proof {
            assert(ls.subrange(0, i as int) =~= ls);
            lemma_avg_bound(ls);
        }
        if tq > 0 {
            (tv / tq) as u64
        } else {
            0
        }
    }

    /// Forgets every symbol.
    pub fn reset(&mut self)
        ensures
            final(self).wf(),
            forall|s: Seq<char>| !final(self).tracks(s),
    {
        self.symbols.clear();
        self.positions.clear();
        self.net_positions.clear();
    }
}

/// Total quantity of lots.
pub open spec fn qty_of(lots: Seq<Position>) -> int
    decreases lots.len(),
{
    if lots.len() == 0 { 0 } else { qty_of(lots.drop_last()) + lots.last().quantity }
}

/// Total entry value of lots.
pub open spec fn value_of(lots: Seq<Position>) -> int
    decreases lots.len(),
{
    if lots.len() == 0 { 0 } else { value_of(lots.drop_last()) + lots.last().entry_price * lots.last().quantity }
}

/// Quantity-weighted mean entry price, rounded down; zero without quantity.
pub open spec fn avg_price_of(lots: Seq<Position>) -> int {
    if qty_of(lots) > 0 { value_of(lots) / qty_of(lots) } else { 0 }
}

pub proof fn lemma_avg_bound(lots: Seq<Position>)
    requires
        forall|j: int| 0 <= j < lots.len() ==> (#[trigger] lots[j]).entry_price <= MAX_PRICE,
    ensures
        0 <= avg_price_of(lots) <= MAX_PRICE,
        0 <= value_of(lots) <= MAX_PRICE as int * qty_of(lots),
        qty_of(lots) >= 0,
    decreases lots.len(),
{
    if lots.len() > 0 {
        let d = lots.drop_last();
        assert forall|j: int| 0 <= j < d.len() implies (#[trigger] d[j]).entry_price <= MAX_PRICE by {
            assert(d[j] == lots[j]);
        }
        lemma_avg_bound(d);
        let l = lots.last();
        assert(l == lots[lots.len() - 1]);
        assert(0 <= l.entry_price * l.quantity <= MAX_PRICE as int * l.quantity) by (nonlinear_arith)
            requires
                l.entry_price <= MAX_PRICE,
        {
        }
    }
    if qty_of(lots) > 0 {
        vstd::arithmetic::div_mod::lemma_div_is_ordered(value_of(lots), MAX_PRICE as int * qty_of(lots), qty_of(lots));
        vstd::arithmetic::div_mod::lemma_div_multiples_vanish(MAX_PRICE as int, qty_of(lots));
        assert(MAX_PRICE as int * qty_of(lots) == qty_of(lots) * MAX_PRICE as int) by (nonlinear_arith);
        vstd::arithmetic::div_mod::lemma_div_pos_is_pos(value_of(lots), qty_of(lots));
    }
}

} // verus!
