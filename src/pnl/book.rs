//! Grouping of a trade sequence by symbol.
use vstd::prelude::*;
use crate::models::{Trade, MAX_PRICE, all_in_bounds};

verus! {

/// The symbols of a trade sequence, each once, in order of first appearance.
pub open spec fn symbols_of(trades: Seq<Trade>) -> Seq<Seq<char>>
    decreases trades.len(),
{
    if trades.len() == 0 {
        seq![]
    } else {
        let prev = symbols_of(trades.drop_last());
        if prev.contains(trades.last().symbol@) {
            prev
        } else {
            prev.push(trades.last().symbol@)
        }
    }
}

/// Price of the last trade of `sym` in the sequence; zero if there is none.
pub open spec fn last_price(trades: Seq<Trade>, sym: Seq<char>) -> int
    decreases trades.len(),
{
    if trades.len() == 0 {
        0
    } else if trades.last().symbol@ == sym {
        trades.last().price as int
    } else {
        last_price(trades.drop_last(), sym)
    }
}

/// No symbol occurs twice.
pub open spec fn distinct_symbols(syms: Seq<Seq<char>>) -> bool {
    forall|i: int, j: int| 0 <= i < j < syms.len() ==> syms[i] != syms[j]
}

pub proof fn lemma_symbols_distinct(trades: Seq<Trade>)
    ensures
        distinct_symbols(symbols_of(trades)),
    decreases trades.len(),
{
    if trades.len() > 0 {
        lemma_symbols_distinct(trades.drop_last());
    }
}

/// Position of `sym` in `syms`, by a scan from the front.
pub fn find_symbol(syms: &Vec<String>, sym: &String) -> (r: Option<usize>)
    ensures
        match r {
            Some(k) => k < syms@.len() && syms@[k as int]@ == sym@,
            None => forall|k: int| 0 <= k < syms@.len() ==> (#[trigger] syms@[k])@ != sym@,
        },
{
    let mut k: usize = 0;
    while k < syms.len()
        invariant
            k <= syms@.len(),
            forall|j: int| 0 <= j < k ==> (#[trigger] syms@[j])@ != sym@,
        decreases syms@.len() - k,
    {
        if syms[k] == *sym {
            return Some(k);
        }
        k = k + 1;
    }
    None
}

/// The last price of a symbol lies within the bounds its trades do.
pub proof fn lemma_last_price_bound(trades: Seq<Trade>, sym: Seq<char>)
    requires
        all_in_bounds(trades),
    ensures
        0 <= last_price(trades, sym) <= MAX_PRICE,
    decreases trades.len(),
{
    if trades.len() > 0 {
        let p = trades.drop_last();
        assert(all_in_bounds(p)) by {
            assert forall|i: int| 0 <= i < p.len() implies (#[trigger] p[i]).in_bounds() by {
                assert(p[i] == trades[i]);
            }
        }
        assert(trades.last() == trades[trades.len() - 1]);
        lemma_last_price_bound(p, sym);
    }
}

/// Sum of `f` over the listed symbols.
pub open spec fn sum_over(syms: Seq<Seq<char>>, f: spec_fn(Seq<char>) -> int) -> int
    decreases syms.len(),
{
    if syms.len() == 0 {
        0
    } else {
        sum_over(syms.drop_last(), f) + f(syms.last())
    }
}

/// A sum of non-negative terms over a prefix is at most the whole sum.
pub proof fn lemma_sum_over_prefix(syms: Seq<Seq<char>>, f: spec_fn(Seq<char>) -> int, k: int)
    requires
        0 <= k <= syms.len(),
        forall|s: Seq<char>| #[trigger] f(s) >= 0,
    ensures
        0 <= sum_over(syms.subrange(0, k), f) <= sum_over(syms, f),
    decreases syms.len(),
{
    if syms.len() > 0 {
        if k == syms.len() {
            assert(syms.subrange(0, k) =~= syms);
            lemma_sum_over_prefix(syms.drop_last(), f, k - 1);
            assert(syms.drop_last().subrange(0, k - 1) =~= syms.drop_last());
        } else {
            lemma_sum_over_prefix(syms.drop_last(), f, k);
            assert(syms.drop_last().subrange(0, k) =~= syms.subrange(0, k));
        }
    }
}

/// When two functions differ only at `sym`, over distinct symbols their sums
/// differ only by its term.
pub proof fn lemma_sum_over_frame(
    syms: Seq<Seq<char>>,
    f1: spec_fn(Seq<char>) -> int,
    f2: spec_fn(Seq<char>) -> int,
    sym: Seq<char>,
)
    requires
        distinct_symbols(syms),
        forall|j: int| 0 <= j < syms.len() && syms[j] != sym ==> f2(#[trigger] syms[j]) == f1(syms[j]),
    ensures
        sum_over(syms, f2) == sum_over(syms, f1) + if syms.contains(sym) {
            f2(sym) - f1(sym)
        } else {
            0
        },
    decreases syms.len(),
{
    if syms.len() > 0 {
        let d = syms.drop_last();
        assert forall|j: int| 0 <= j < d.len() && d[j] != sym implies f2(#[trigger] d[j]) == f1(d[j]) by {
            assert(d[j] == syms[j]);
        }
        lemma_sum_over_frame(d, f1, f2, sym);
        if syms.last() == sym {
            assert(syms[syms.len() - 1] == sym);
            if d.contains(sym) {
                let j = choose|j: int| 0 <= j < d.len() && d[j] == sym;
                assert(syms[j] == syms[syms.len() - 1]);
            }
        } else {
            assert(f2(syms[syms.len() - 1]) == f1(syms[syms.len() - 1]));
            if syms.contains(sym) {
                let j = choose|j: int| 0 <= j < syms.len() && syms[j] == sym;
                assert(d[j] == sym);
            }
            if d.contains(sym) {
                let j = choose|j: int| 0 <= j < d.len() && d[j] == sym;
                assert(syms[j] == sym);
            }
        }
    }
}

} // verus!
