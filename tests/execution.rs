use happytest::models::{Side, Trade, TradeStatus};
use happytest::trading::executor::{BacktestConfig, BacktestTradeEmitter, slip};

fn proposal(side: Side, price: u64) -> Trade {
    Trade::new(1, "BTCUSDT".to_string(), side, price, 1)
}

fn certain() -> BacktestConfig {
    BacktestConfig { fill_rate_ppm: 1000000, rejection_rate_ppm: 0, slippage_ppm: 100, ..BacktestConfig::default() }
}

#[test]
fn certain_fill_applies_slippage_by_side() {
    for seed in 0..20u64 {
        let mut ex = BacktestTradeEmitter::new(certain(), seed);
        let b = ex.execute_trade(Some(proposal(Side::Buy, 1000000))).unwrap();
        assert_eq!(b.status, TradeStatus::Filled);
        assert_eq!(b.price, 1000100);
        let s = ex.execute_trade(Some(proposal(Side::Sell, 1000000))).unwrap();
        assert_eq!(s.status, TradeStatus::Filled);
        assert_eq!(s.price, 999900);
        assert_eq!(ex.get_stats().filled_trades, 2);
        assert_eq!(ex.get_stats().total_slippage, 200);
    }
}

#[test]
fn no_proposal_no_trade() {
    let mut ex = BacktestTradeEmitter::new(BacktestConfig::default(), 7);
    assert!(ex.execute_trade(None).is_none());
    assert_eq!(ex.get_stats().total_trades, 0);
}

#[test]
fn shared_draw_decides_reject_fill_unfilled() {
    let cfg = BacktestConfig { fill_rate_ppm: 600000, rejection_rate_ppm: 200000, slippage_ppm: 0, ..BacktestConfig::default() };
    let mut ex = BacktestTradeEmitter::new(cfg, 1);
    assert_eq!(ex.execute_drawn(Some(proposal(Side::Buy, 100)), 199999).unwrap().status, TradeStatus::Rejected);
    assert_eq!(ex.execute_drawn(Some(proposal(Side::Buy, 100)), 200000).unwrap().status, TradeStatus::Filled);
    assert_eq!(ex.execute_drawn(Some(proposal(Side::Buy, 100)), 599999).unwrap().status, TradeStatus::Filled);
    assert_eq!(ex.execute_drawn(Some(proposal(Side::Buy, 100)), 600000).unwrap().status, TradeStatus::Unfilled);
    let st = ex.get_stats();
    assert_eq!((st.total_trades, st.rejected_trades, st.filled_trades), (4, 1, 2));
}

#[test]
fn same_seed_same_fills() {
    let run = |seed: u64| -> Vec<(TradeStatus, u64)> {
        let mut ex = BacktestTradeEmitter::new(BacktestConfig::default(), seed);
        (0..200).map(|i| {
            let side = if i % 2 == 0 { Side::Buy } else { Side::Sell };
            let t = ex.execute_trade(Some(proposal(side, 1000000 + i))).unwrap();
            (t.status, t.price)
        }).collect()
    };
    assert_eq!(run(42), run(42));
    assert_ne!(run(42), run(43));
    let statuses = run(42);
    assert!(statuses.iter().any(|s| s.0 == TradeStatus::Filled));
    assert!(statuses.iter().all(|s| s.0 != TradeStatus::Pending));
}

#[test]
fn slip_caps_and_rounds() {
    assert_eq!(slip(Side::Buy, 100, 50), 100);
    assert_eq!(slip(Side::Buy, 2147483648, 1000000), 2147483648);
    assert_eq!(slip(Side::Sell, 100, 1000000), 50);
}

#[test]
fn fresh_ids_differ() {
    let a = proposal(Side::Buy, 1);
    let b = proposal(Side::Buy, 1);
    assert_eq!(a.id.len(), 36);
    assert_ne!(a.id, b.id);
}

#[test]
fn large_slippage_is_accepted() {
    let cfg = BacktestConfig { fill_rate_ppm: 1000000, rejection_rate_ppm: 0, slippage_ppm: 3000000, ..BacktestConfig::default() };
    assert!(cfg.is_valid());
    let mut ex = BacktestTradeEmitter::new(cfg, 5);
    assert_eq!(ex.execute_trade(Some(proposal(Side::Buy, 100))).unwrap().price, 400);
    assert_eq!(ex.execute_trade(Some(proposal(Side::Sell, 100))).unwrap().price, 25);
}
