//! Rolling windows and the signals computed over them.
use vstd::prelude::*;
use crate::models::MAX_PRICE;
use crate::order_book::{PPM, floor_div};

verus! {

/// Largest capacity of a rolling window.
pub const MAX_WINDOW: usize = 4096;

/// A window of capacity `cap` after `x` arrives: the oldest sample leaves
/// once the window would hold more than `cap`.
pub open spec fn push_window<T>(w: Seq<T>, x: T, cap: int) -> Seq<T> {
    if w.push(x).len() > cap {
        w.push(x).drop_first()
    } else {
        w.push(x)
    }
}

/// Adds `x` to a window of capacity `cap`.
pub fn push_window_exec<T>(w: &mut Vec<T>, x: T, cap: usize)
    ensures
        final(w)@ == push_window(old(w)@, x, cap as int),
{
    w.push(x);
    if w.len() > cap {
        w.remove(0);
    }
}

/// Return from `prev` to `cur` in millionths, rounded down; zero after a
/// zero price.
pub open spec fn ret_of(prev: int, cur: int) -> int {
    if prev == 0 { 0 } else { (cur - prev) * PPM / prev }
}

/// Sum of the first `k` returns of a price window.
pub open spec fn sum_ret(w: Seq<u64>, k: int) -> int
    decreases k,
{
    if k <= 0 { 0 } else { sum_ret(w, k - 1) + ret_of(w[k - 1] as int, w[k] as int) }
}

/// Sum of the squares of the first `k` returns of a price window.
pub open spec fn sum_ret_sq(w: Seq<u64>, k: int) -> int
    decreases k,
{
    if k <= 0 {
        0
    } else {
        sum_ret_sq(w, k - 1) + ret_of(w[k - 1] as int, w[k] as int) * ret_of(w[k - 1] as int, w[k] as int)
    }
}

/// The standard deviation of the window's returns exceeds `thr` (in
/// millionths): with `m` returns, m·Σr² − (Σr)² > thr²·m². Fewer than two
/// prices give no returns and no breach.
pub open spec fn volatility_breach(w: Seq<u64>, thr: int) -> bool {
    w.len() >= 2 && {
        let m = w.len() - 1;
        m * sum_ret_sq(w, m) - sum_ret(w, m) * sum_ret(w, m) > thr * thr * (m * m)
    }
}

/// Change from the first to the last price of the window in millionths,
/// rounded down; zero for fewer than two prices.
pub open spec fn momentum_of(w: Seq<u64>) -> int {
    if w.len() < 2 { 0 } else { ret_of(w[0] as int, w[w.len() - 1] as int) }
}

/// The momentum's magnitude exceeds `thr`.
pub open spec fn momentum_breach(w: Seq<u64>, thr: int) -> bool {
    let m = momentum_of(w);
    (if m < 0 { -m } else { m }) > thr
}

/// Bound on the magnitude of one return.
pub open spec fn ret_bound() -> int {
    MAX_PRICE as int * PPM
}

pub proof fn lemma_ret_bound(prev: int, cur: int)
    requires
        0 <= prev <= MAX_PRICE,
        0 <= cur <= MAX_PRICE,
    ensures
        -ret_bound() <= ret_of(prev, cur) <= ret_bound(),
{
    if prev > 0 {
        let n = (cur - prev) * PPM;
        assert(-(PPM as int) * prev <= n <= ret_bound()) by (nonlinear_arith)
            requires
                n == (cur - prev) * PPM,
                1 <= prev <= MAX_PRICE,
                0 <= cur <= MAX_PRICE,
                ret_bound() == MAX_PRICE as int * PPM,
        {
        }
        vstd::arithmetic::div_mod::lemma_div_is_ordered(n, ret_bound(), prev);
        vstd::arithmetic::div_mod::lemma_div_is_ordered(-(PPM as int) * prev, n, prev);
        vstd::arithmetic::div_mod::lemma_div_is_ordered_by_denominator(ret_bound(), 1, prev);
        vstd::arithmetic::div_mod::lemma_div_multiples_vanish(-(PPM as int), prev);
        assert(-(PPM as int) * prev == prev * -(PPM as int)) by (nonlinear_arith);
    }
}

/// Return from `prev` to `cur` in millionths.
pub fn ret_exec(prev: u64, cur: u64) -> (r: i128)
    requires
        prev <= MAX_PRICE,
        cur <= MAX_PRICE,
    ensures
        r == ret_of(prev as int, cur as int),
        -ret_bound() <= r <= ret_bound(),
{
    proof {
        lemma_ret_bound(prev as int, cur as int);
    }
    if prev == 0 {
        0
    } else {
        floor_div((cur as i128 - prev as i128) * PPM, prev as i128)
    }
}

/// Every price of the window lies within the accepted bound.
pub open spec fn prices_ok(w: Seq<u64>) -> bool {
    forall|i: int| 0 <= i < w.len() ==> #[trigger] w[i] <= MAX_PRICE
}

/// Whether the standard deviation of the window's returns exceeds `thr`.
pub fn volatility_exceeds(w: &Vec<u64>, thr: u64) -> (r: bool)
    requires
        prices_ok(w@),
        w@.len() <= MAX_WINDOW,
        thr <= 0x1_0000_0000,
    ensures
        r == volatility_breach(w@, thr as int),
{
    if w.len() < 2 {
        return false;
    }
    let m: usize = w.len() - 1;
    let mut s: i128 = 0;
    let mut sq: i128 = 0;
    let mut k: usize = 0;
    while k < m
        invariant
            k <= m,
            m == w@.len() - 1,
            m < MAX_WINDOW,
            prices_ok(w@),
            s == sum_ret(w@, k as int),
            sq == sum_ret_sq(w@, k as int),
            -ret_bound() * k <= s <= ret_bound() * k,
            0 <= sq <= ret_bound() * ret_bound() * k,
            ret_bound() == 2147483648000000,
        decreases m - k,
    {
        let r = ret_exec(w[k], w[k + 1]);
        proof {
            assert(0 <= r * r <= ret_bound() * ret_bound()) by (nonlinear_arith)
                requires
                    -ret_bound() <= r <= ret_bound(),
            {
            }
            assert(ret_bound() * k <= ret_bound() * MAX_WINDOW) by (nonlinear_arith)
                requires
                    k < MAX_WINDOW,
                    ret_bound() >= 0,
            {
            }
            assert(ret_bound() * ret_bound() * k <= ret_bound() * ret_bound() * MAX_WINDOW) by (nonlinear_arith)
                requires
                    k < MAX_WINDOW,
            {
            }
            assert(ret_bound() * (k + 1) == ret_bound() * k + ret_bound()) by (nonlinear_arith);
            assert(ret_bound() * MAX_WINDOW < 0x7fff_ffff_ffff_ffff_ffff_ffff_ffff_ffff);
            assert(ret_bound() * ret_bound() * MAX_WINDOW < 0x7fff_ffff_ffff_ffff_ffff_ffff_ffff_ffff);
            assert(ret_bound() * ret_bound() * (k + 1) == ret_bound() * ret_bound() * k + ret_bound() * ret_bound()) by (nonlinear_arith);
        }
        s = s + r;
        sq = sq + r * r;
        k = k + 1;
    }
    let mi = m as i128;
    proof {
        assert(m as int * sq <= MAX_WINDOW as int * (ret_bound() * ret_bound() * MAX_WINDOW)) by (nonlinear_arith)
            requires
                0 <= sq <= ret_bound() * ret_bound() * m,
                m < MAX_WINDOW,
                ret_bound() > 0,
        {
        }
        assert(0 <= m as int * sq) by (nonlinear_arith)
            requires
                0 <= sq,
                m >= 0,
        {
        }
        assert(-ret_bound() * MAX_WINDOW <= s <= ret_bound() * MAX_WINDOW) by (nonlinear_arith)
            requires
                -ret_bound() * m <= s <= ret_bound() * m,
                m < MAX_WINDOW,
                ret_bound() > 0,
        {
        }
        assert(0 <= s * s <= (ret_bound() * MAX_WINDOW) * (ret_bound() * MAX_WINDOW)) by (nonlinear_arith)
            requires
                -ret_bound() * MAX_WINDOW <= s <= ret_bound() * MAX_WINDOW,
        {
        }
        assert(0 <= thr as int * thr as int * (m * m) <= 0x1_0000_0000 * 0x1_0000_0000 * (MAX_WINDOW * MAX_WINDOW)) by (nonlinear_arith)
            requires
                thr <= 0x1_0000_0000,
                m < MAX_WINDOW,
        {
        }
    }
    let t = thr as i128;
    proof {
        assert(t * t <= 0x1_0000_0000 * 0x1_0000_0000) by (nonlinear_arith)
            requires
                0 <= t <= 0x1_0000_0000,
        {
        }
        assert(mi * mi <= MAX_WINDOW * MAX_WINDOW) by (nonlinear_arith)
            requires
                0 <= mi < MAX_WINDOW,
        {
        }
        assert(t * t * (mi * mi) <= 0x1_0000_0000 * 0x1_0000_0000 * (MAX_WINDOW * MAX_WINDOW)) by (nonlinear_arith)
            requires
                t * t <= 0x1_0000_0000 * 0x1_0000_0000,
                0 <= mi * mi <= MAX_WINDOW * MAX_WINDOW,
                t * t >= 0,
        {
        }
        assert(MAX_WINDOW as int * (ret_bound() * ret_bound() * MAX_WINDOW) < 0x7fff_ffff_ffff_ffff_ffff_ffff_ffff_ffff);
        assert(t * t * (mi * mi) <= 309485009821345068724781056) by (nonlinear_arith)
            requires
                0 <= t <= 4294967296,
                0 <= mi <= 4096,
        {
        }
        assert(ret_bound() * MAX_WINDOW == 8796093022208000000);
        assert(8796093022208000000 * 8796093022208000000 < 0x7fff_ffff_ffff_ffff_ffff_ffff_ffff_ffff);
    }
    mi * sq - s * s > t * t * (mi * mi)
}

/// Whether the magnitude of the window's momentum exceeds `thr`.
pub fn momentum_exceeds(w: &Vec<u64>, thr: u64) -> (r: bool)
    requires
        prices_ok(w@),
    ensures
        r == momentum_breach(w@, thr as int),
{
    if w.len() < 2 {
        return 0 > thr as i128;
    }
    let m = ret_exec(w[0], w[w.len() - 1]);
    let a = if m < 0 { -m } else { m };
    a > thr as i128
}

} // verus!
