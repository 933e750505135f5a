//! Order-book messages as recorded on disk, and their conversion into
//! snapshots with integer prices and quantities.
use vstd::prelude::*;
use crate::models::{MAX_PRICE, MAX_QUANTITY, TradeError};
use crate::order_book::{OrderBook, levels_ok};

verus! {

/// The symbol at the head of a data file name: everything before the first
/// `_` ("ETHUSDT_3600_sec.jsonl" gives "ETHUSDT"), or the whole name.
pub open spec fn symbol_prefix(s: Seq<char>) -> Seq<char>
    decreases s.len(),
{
    if s.len() == 0 {
        s
    } else if s[0] == '_' {
        seq![]
    } else {
        seq![s[0]] + symbol_prefix(s.drop_first())
    }
}

pub proof fn lemma_symbol_prefix(s: Seq<char>, k: int)
    requires
        0 <= k <= s.len(),
        forall|j: int| 0 <= j < k ==> s[j] != '_',
        k == s.len() || s[k] == '_',
    ensures
        symbol_prefix(s) == s.subrange(0, k),
    decreases s.len(),
{
    if s.len() > 0 && k > 0 {
        lemma_symbol_prefix(s.drop_first(), k - 1);
        assert(seq![s[0]] + s.drop_first().subrange(0, k - 1) =~= s.subrange(0, k));
    } else if s.len() > 0 {
        assert(s.subrange(0, 0) =~= Seq::<char>::empty());
    }
}

/// Position of the first `c` in `s`, or the length of `s`.
fn first_index_of(s: &str, c: char) -> (k: usize)
    ensures
        k <= s@.len(),
        forall|j: int| 0 <= j < k ==> s@[j] != c,
        k == s@.len() || s@[k as int] == c,
{
    let n = s.unicode_len();
    let mut k: usize = 0;
    while k < n
        invariant
            k <= n,
            n == s@.len(),
            forall|j: int| 0 <= j < k ==> s@[j] != c,
        decreases n - k,
    {
        if s.get_char(k) == c {
            return k;
        }
        k = k + 1;
    }
    k
}

/// The symbol of a data file (see `symbol_prefix`).
pub fn extract_symbol_from_filename(filename: &str) -> (r: String)
    ensures
        r@ == symbol_prefix(filename@),
{
    let k = first_index_of(filename, '_');
    proof {
        lemma_symbol_prefix(filename@, k as int);
    }
    String::from_str(filename.substring_char(0, k))
}

pub open spec fn is_digit(c: char) -> bool {
    '0' <= c <= '9'
}

/// Value of a string of decimal digits.
pub open spec fn digits_value(s: Seq<char>) -> int
    decreases s.len(),
{
    if s.len() == 0 {
        0
    } else {
        digits_value(s.drop_last()) * 10 + (s.last() as int - '0' as int)
    }
}

pub open spec fn pow10(n: nat) -> int
    decreases n,
{
    if n == 0 { 1 } else { 10 * pow10((n - 1) as nat) }
}

/// Position of the first `.`, or -1.
pub open spec fn dot_index(s: Seq<char>) -> int
    decreases s.len(),
{
    if s.len() == 0 {
        -1
    } else {
        let k = dot_index(s.drop_last());
        if k >= 0 { k } else if s.last() == '.' { s.len() - 1 } else { -1 }
    }
}

/// The digits before the point (all of `s` without one).
pub open spec fn whole_part(s: Seq<char>) -> Seq<char> {
    if dot_index(s) < 0 { s } else { s.subrange(0, dot_index(s)) }
}

/// The digits after the point (none without one).
pub open spec fn frac_part(s: Seq<char>) -> Seq<char> {
    if dot_index(s) < 0 { Seq::<char>::empty() } else { s.subrange(dot_index(s) + 1, s.len() as int) }
}

pub open spec fn all_digits(s: Seq<char>) -> bool {
    forall|i: int| 0 <= i < s.len() ==> is_digit(#[trigger] s[i])
}

/// A decimal number as an integer count of `10^-decimals` units: one or
/// more digits, optionally a point and at most `decimals` more digits.
/// `None` for anything else, or for a value above `limit`.
pub open spec fn decimal_units(s: Seq<char>, decimals: nat, limit: int) -> Option<int> {
    let digits = whole_part(s) + frac_part(s);
    if whole_part(s).len() == 0 || frac_part(s).len() > decimals || !all_digits(digits) {
        None
    } else {
        let v = digits_value(digits) * pow10((decimals - frac_part(s).len()) as nat);
        if v > limit { None } else { Some(v) }
    }
}

pub proof fn lemma_digits_monotone(a: Seq<char>, b: Seq<char>)
    requires
        forall|i: int| 0 <= i < a.len() + b.len() ==> is_digit(#[trigger] (a + b)[i]),
    ensures
        digits_value(a) <= digits_value(a + b),
        digits_value(a) >= 0,
    decreases b.len(),
{
    if b.len() > 0 {
        assert((a + b).drop_last() =~= a + b.drop_last());
        assert forall|i: int| 0 <= i < a.len() + b.drop_last().len() implies is_digit(#[trigger] (a + b.drop_last())[i]) by {
            assert((a + b.drop_last())[i] == (a + b)[i]);
        }
        lemma_digits_monotone(a, b.drop_last());
        assert((a + b).last() == (a + b)[a.len() + b.len() - 1]);
    } else {
        assert(a + b =~= a);
        lemma_digits_nonneg(a);
    }
}

pub proof fn lemma_digits_nonneg(a: Seq<char>)
    requires
        forall|i: int| 0 <= i < a.len() ==> is_digit(#[trigger] a[i]),
    ensures
        digits_value(a) >= 0,
    decreases a.len(),
{
    if a.len() > 0 {
        assert forall|i: int| 0 <= i < a.len() - 1 implies is_digit(#[trigger] a.drop_last()[i]) by {
            assert(a.drop_last()[i] == a[i]);
        }
        lemma_digits_nonneg(a.drop_last());
        assert(a.last() == a[a.len() - 1]);
    }
}

pub proof fn lemma_pow10_pos(n: nat)
    ensures
        pow10(n) >= 1,
    decreases n,
{
    if n > 0 {
        lemma_pow10_pos((n - 1) as nat);
    }
}

pub proof fn lemma_dot_index(s: Seq<char>, k: int)
    requires
        0 <= k <= s.len(),
        forall|j: int| 0 <= j < k ==> s[j] != '.',
    ensures
        k == s.len() ==> dot_index(s) == -1,
        k < s.len() && s[k] == '.' ==> dot_index(s) == k,
    decreases s.len(),
{
    if s.len() > 0 {
        if k == s.len() {
            lemma_dot_index(s.drop_last(), k - 1);
            assert forall|j: int| 0 <= j < k - 1 implies s.drop_last()[j] != '.' by {
                assert(s.drop_last()[j] == s[j]);
            }
            assert(s.last() == s[k - 1]);
        } else if s[k] == '.' {
            if k < s.len() - 1 {
                assert forall|j: int| 0 <= j < k implies s.drop_last()[j] != '.' by {
                    assert(s.drop_last()[j] == s[j]);
                }
                lemma_dot_index(s.drop_last(), k);
                assert(s.drop_last()[k] == s[k]);
            } else {
                assert forall|j: int| 0 <= j < k implies s.drop_last()[j] != '.' by {
                    assert(s.drop_last()[j] == s[j]);
                }
                lemma_dot_index(s.drop_last(), k);
                assert(s.last() == s[k]);
            }
        }
    }
}

/// Parses a decimal string into `10^-decimals` units (see `decimal_units`).
pub fn parse_decimal(s: &str, decimals: u32, limit: u64) -> (r: Option<u64>)
    requires
        decimals <= 9,
    ensures
        r matches Some(v) ==> decimal_units(s@, decimals as nat, limit as int) == Some(v as int),
        r is None ==> decimal_units(s@, decimals as nat, limit as int) is None,
{
    let n = s.unicode_len();
    let ghost sv = s@;
    let k = first_index_of(s, '.');
    proof {
        lemma_dot_index(sv, k as int);
    }
    let has_dot = k < n;
    let frac_len: usize = if has_dot { n - k - 1 } else { 0 };
    let ghost whole = sv.subrange(0, k as int);
    let ghost frac = if has_dot { sv.subrange(k + 1, n as int) } else { Seq::<char>::empty() };
    let ghost digits = whole + frac;
    proof {
        if has_dot {
            assert(dot_index(sv) == k);
        } else {
            assert(dot_index(sv) == -1);
            assert(whole =~= sv);
            assert(frac =~= Seq::<char>::empty());
        }
    }
    if k == 0 || frac_len > decimals as usize {
        return None;
    }
    let mut v: u64 = 0;
    let mut i: usize = 0;
    let total: usize = k + frac_len;
    proof {
        assert(digits.subrange(0, 0).len() == 0);
    }
    while i < total
        invariant
            i <= total,
            total == digits.len(),
            k == whole.len(),
            k <= n,
            n == sv.len(),
            sv == s@,
            whole == sv.subrange(0, k as int),
            has_dot ==> frac == sv.subrange(k + 1, n as int),
            !has_dot ==> frac.len() == 0,
            has_dot ==> k < n,
            has_dot ==> dot_index(sv) == k,
            !has_dot ==> dot_index(sv) == -1 && whole == sv && frac == Seq::<char>::empty(),
            k > 0,
            frac_len <= decimals,
            decimals <= 9,
            frac.len() == frac_len,
            digits == whole + frac,
            forall|j: int| 0 <= j < i ==> is_digit(#[trigger] digits[j]),
            v == digits_value(digits.subrange(0, i as int)),
            v <= limit,
        decreases total - i,
    {
        let c = if i < k { s.get_char(i) } else { s.get_char(i + 1) };
        proof {
            if i < k {
                assert(digits[i as int] == sv[i as int]);
            } else {
                assert(digits[i as int] == frac[i - k]);
                assert(frac[i - k] == sv[i + 1]);
            }
        }
        if !('0' <= c && c <= '9') {
            proof {
                assert(!is_digit(digits[i as int]));
                assert(whole_part(sv) == whole);
                assert(frac_part(sv) == frac);
                assert(!all_digits(digits));
            }
            return None;
        }
        let d = (c as u32 - '0' as u32) as u64;
        proof {
            assert(digits.subrange(0, i + 1).drop_last() =~= digits.subrange(0, i as int));
            assert(digits.subrange(0, i + 1).last() == c);
        }
        let nv: u128 = v as u128 * 10 + d as u128;
        if nv > limit as u128 {
            proof {
                assert(whole_part(sv) == whole);
                assert(frac_part(sv) == frac);
                let pre = digits.subrange(0, i + 1);
                let rest = digits.subrange(i + 1, total as int);
                assert(pre + rest =~= digits);
                if all_digits(digits) {
                    assert forall|j: int| 0 <= j < pre.len() + rest.len() implies is_digit(#[trigger] (pre + rest)[j]) by {}
                    lemma_digits_monotone(pre, rest);
                    let e = (decimals - frac.len()) as nat;
                    lemma_pow10_pos(e);
                    assert(digits_value(digits) * pow10(e) >= digits_value(digits)) by (nonlinear_arith)
                        requires
                            digits_value(digits) >= 0,
                            pow10(e) >= 1,
                    {
                    }
                }
            }
            return None;
        }
        v = nv as u64;
        i = i + 1;
    }
    proof {
        assert(digits.subrange(0, i as int) =~= digits);
    }
    let e: u32 = decimals - frac_len as u32;
    let mut p: u128 = 1;
    let mut j: u32 = 0;
    while j < e
        invariant
            j <= e,
            e <= 9,
            p == pow10(j as nat),
            p <= 1000000000,
        decreases e - j,
    {
        proof {
            assert(pow10((j + 1) as nat) == 10 * pow10(j as nat));
            lemma_pow10_bound(j as nat);
        }
        p = p * 10;
        j = j + 1;
    }
    proof {
        assert(v as int * p <= 0xffff_ffff_ffff_ffff * 1000000000) by (nonlinear_arith)
            requires
                v <= 0xffff_ffff_ffff_ffff,
                p <= 1000000000,
        {
        }
        assert(p >= 1) by {
            lemma_pow10_pos(j as nat);
        }
    }
    let out: u128 = v as u128 * p;
    if out > limit as u128 {
        None
    } else {
        Some(out as u64)
    }
}

pub proof fn lemma_pow10_bound(n: nat)
    requires
        n < 9,
    ensures
        pow10(n) <= 100000000,
{
    lemma_pow10_le(n, 8);
    reveal_with_fuel(pow10, 9);
    assert(pow10(8) == 100000000);
}

pub proof fn lemma_pow10_le(n: nat, m: nat)
    requires
        n <= m,
    ensures
        pow10(n) <= pow10(m),
    decreases m,
{
    if n < m {
        lemma_pow10_le(n, (m - 1) as nat);
        lemma_pow10_pos((m - 1) as nat);
    }
}

/// Price levels as recorded: each a list of strings, price then quantity.
pub struct OrderBookData {
    pub b: Vec<Vec<String>>,
    pub a: Vec<Vec<String>>,
}

/// A recorded order-book message.
pub struct OrderBookMessage {
    pub ts: i64,
    pub data: OrderBookData,
}

/// A recorded order-book message in the newer layout.
pub struct OrderBookMessageV2 {
    pub symbol: String,
    pub bids: Vec<Vec<String>>,
    pub asks: Vec<Vec<String>>,
    pub timestamp: i64,
    pub update_id: i64,
    pub fetch_time: i64,
}

/// Levels parsed into (price, quantity) in units of `10^-pd` and `10^-qd`.
/// A level with fewer than two fields is skipped; any field that does not
/// parse, or exceeds the accepted bounds, makes the whole side `None`.
pub open spec fn levels_of(levels: Seq<Vec<String>>, pd: nat, qd: nat) -> Option<Seq<(u64, u64)>>
    decreases levels.len(),
{
    if levels.len() == 0 {
        Some(Seq::<(u64, u64)>::empty())
    } else {
        match levels_of(levels.drop_last(), pd, qd) {
            None => None,
            Some(prev) => {
                let l = levels.last()@;
                if l.len() < 2 {
                    Some(prev)
                } else {
                    match (decimal_units(l[0]@, pd, MAX_PRICE as int), decimal_units(l[1]@, qd, MAX_QUANTITY as int)) {
                        (Some(p), Some(q)) => Some(prev.push((p as u64, q as u64))),
                        _ => None,
                    }
                }
            },
        }
    }
}

/// A parsed decimal lies between zero and its limit.
pub proof fn lemma_decimal_range(s: Seq<char>, d: nat, limit: int)
    requires
        decimal_units(s, d, limit) is Some,
    ensures
        0 <= decimal_units(s, d, limit)->Some_0 <= limit,
{
    let digits = whole_part(s) + frac_part(s);
    lemma_digits_nonneg(digits);
    let e = (d - frac_part(s).len()) as nat;
    lemma_pow10_pos(e);
    assert(digits_value(digits) * pow10(e) >= 0) by (nonlinear_arith)
        requires
            digits_value(digits) >= 0,
            pow10(e) >= 1,
    {
    }
}

pub proof fn lemma_levels_ok(levels: Seq<Vec<String>>, pd: nat, qd: nat)
    requires
        levels_of(levels, pd, qd) is Some,
    ensures
        levels_ok(levels_of(levels, pd, qd)->Some_0),
    decreases levels.len(),
{
    if levels.len() > 0 {
        lemma_levels_ok(levels.drop_last(), pd, qd);
        let prev = levels_of(levels.drop_last(), pd, qd)->Some_0;
        let r = levels_of(levels, pd, qd)->Some_0;
        let l = levels.last()@;
        if l.len() >= 2 {
            lemma_decimal_range(l[0]@, pd, MAX_PRICE as int);
            lemma_decimal_range(l[1]@, qd, MAX_QUANTITY as int);
        }
        assert forall|i: int| 0 <= i < r.len() implies (#[trigger] r[i]).0 <= MAX_PRICE && r[i].1 <= MAX_QUANTITY by {
            if i < prev.len() {
                assert(r[i] == prev[i]);
            }
        }
    }
}

/// Parses one side of a book (see `levels_of`).
pub fn parse_levels(levels: &Vec<Vec<String>>, price_decimals: u32, quantity_decimals: u32) -> (r: Result<Vec<(u64, u64)>, TradeError>)
    requires
        price_decimals <= 9,
        quantity_decimals <= 9,
    ensures
        r is Ok <==> levels_of(levels@, price_decimals as nat, quantity_decimals as nat) is Some,
        r matches Ok(v) ==> v@ == levels_of(levels@, price_decimals as nat, quantity_decimals as nat)->Some_0,
        r matches Err(e) ==> e is InvalidOrderBook,
{
    let mut out: Vec<(u64, u64)> = Vec::new();
    let mut i: usize = 0;
    while i < levels.len()
        invariant
            i <= levels@.len(),
            price_decimals <= 9,
            quantity_decimals <= 9,
            levels_of(levels@.subrange(0, i as int), price_decimals as nat, quantity_decimals as nat) == Some(out@),
        decreases levels@.len() - i,
    {
        proof {
            assert(levels@.subrange(0, i + 1).drop_last() =~= levels@.subrange(0, i as int));
            assert(levels@.subrange(0, i + 1).last() == levels@[i as int]);
        }
        let level = &levels[i];
        if level.len() >= 2 {
            let p = parse_decimal(level[0].as_str(), price_decimals, MAX_PRICE);
            let q = parse_decimal(level[1].as_str(), quantity_decimals, MAX_QUANTITY);
            match (p, q) {
                (Some(p), Some(q)) => {
                    out.push((p, q));
                },
                _ => {
                    proof {
                        lemma_levels_none_prefix(levels@, i + 1, price_decimals as nat, quantity_decimals as nat);
                    }
                    return Err(TradeError::InvalidOrderBook(String::from_str("unparsable price level")));
                },
            }
        }
        i = i + 1;
    }
    proof {
        assert(levels@.subrange(0, i as int) =~= levels@);
    }
    Ok(out)
}

/// A side that fails to parse on a prefix fails as a whole.
pub proof fn lemma_levels_none_prefix(levels: Seq<Vec<String>>, k: int, pd: nat, qd: nat)
    requires
        0 <= k <= levels.len(),
        levels_of(levels.subrange(0, k), pd, qd) is None,
    ensures
        levels_of(levels, pd, qd) is None,
    decreases levels.len() - k,
{
    if k < levels.len() {
        assert(levels.subrange(0, k + 1).drop_last() =~= levels.subrange(0, k));
        lemma_levels_none_prefix(levels, k + 1, pd, qd);
    } else {
        assert(levels.subrange(0, k) =~= levels);
    }
}

/// A snapshot from a recorded message, prices in units of
/// `10^-price_decimals` and quantities of `10^-quantity_decimals`. Any
/// unparsable or out-of-range field is `InvalidOrderBook`.
pub fn parse_message(message: &OrderBookMessage, price_decimals: u32, quantity_decimals: u32) -> (r: Result<OrderBook, TradeError>)
    requires
        price_decimals <= 9,
        quantity_decimals <= 9,
    ensures
        r is Ok <==> levels_of(message.data.b@, price_decimals as nat, quantity_decimals as nat) is Some
            && levels_of(message.data.a@, price_decimals as nat, quantity_decimals as nat) is Some,
        r matches Ok(book) ==> book.bids@ == levels_of(message.data.b@, price_decimals as nat, quantity_decimals as nat)->Some_0
            && book.asks@ == levels_of(message.data.a@, price_decimals as nat, quantity_decimals as nat)->Some_0
            && book.current_time == message.ts && book.in_bounds(),
        r matches Err(e) ==> e is InvalidOrderBook,
{
    let bids = match parse_levels(&message.data.b, price_decimals, quantity_decimals) {
        Ok(v) => v,
        Err(e) => return Err(e),
    };
    let asks = match parse_levels(&message.data.a, price_decimals, quantity_decimals) {
        Ok(v) => v,
        Err(e) => return Err(e),
    };
    proof {
        lemma_levels_ok(message.data.b@, price_decimals as nat, quantity_decimals as nat);
        lemma_levels_ok(message.data.a@, price_decimals as nat, quantity_decimals as nat);
    }
    Ok(OrderBook::new(bids, asks, message.ts))
}

/// A snapshot from a message in the newer layout (see `parse_message`).
pub fn parse_message_v2(message: &OrderBookMessageV2, price_decimals: u32, quantity_decimals: u32) -> (r: Result<OrderBook, TradeError>)
    requires
        price_decimals <= 9,
        quantity_decimals <= 9,
    ensures
        r is Ok <==> levels_of(message.bids@, price_decimals as nat, quantity_decimals as nat) is Some
            && levels_of(message.asks@, price_decimals as nat, quantity_decimals as nat) is Some,
        r matches Ok(book) ==> book.bids@ == levels_of(message.bids@, price_decimals as nat, quantity_decimals as nat)->Some_0
            && book.asks@ == levels_of(message.asks@, price_decimals as nat, quantity_decimals as nat)->Some_0
            && book.current_time == message.timestamp && book.in_bounds(),
        r matches Err(e) ==> e is InvalidOrderBook,
{
    let bids = match parse_levels(&message.bids, price_decimals, quantity_decimals) {
        Ok(v) => v,
        Err(e) => return Err(e),
    };
    let asks = match parse_levels(&message.asks, price_decimals, quantity_decimals) {
        Ok(v) => v,
        Err(e) => return Err(e),
    };
    proof {
        lemma_levels_ok(message.bids@, price_decimals as nat, quantity_decimals as nat);
        lemma_levels_ok(message.asks@, price_decimals as nat, quantity_decimals as nat);
    }
    Ok(OrderBook::new(bids, asks, message.timestamp))
}

} // verus!
