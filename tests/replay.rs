use happytest::backtest::{BacktestEngine, build_strategy, replay_step};
use happytest::ledger::TradeState;
use happytest::models::{Side, Trade, TradeError, TradeStatus, MAX_PRICE};
use happytest::order_book::OrderBook;
use happytest::strategy::gpt_market_maker::{GptMarketMaker, GptMarketMakerConfig};
use happytest::trading::executor::{BacktestConfig, BacktestTradeEmitter};

fn filled(symbol: &str, side: Side, quantity: u64, time: i64) -> Trade {
    let mut t = Trade::new(time, symbol.to_string(), side, 100, quantity);
    t.status = TradeStatus::Filled;
    t
}

fn certain() -> BacktestConfig {
    BacktestConfig { fill_rate_ppm: 1000000, rejection_rate_ppm: 0, slippage_ppm: 0, ..BacktestConfig::default() }
}

fn quick_config() -> GptMarketMakerConfig {
    GptMarketMakerConfig {
        vwap_window: 2,
        volatility_window: 3,
        max_volatility_threshold: 4294967296,
        momentum_threshold: 4294967296,
        use_limit_orders: false,
        fix_order_volume: 1,
        ..GptMarketMakerConfig::default()
    }
}

#[test]
fn step_records_settles_and_reports() {
    let mut ledger = TradeState::new();
    let mut mm = GptMarketMaker::new("BTCUSDT".to_string(), quick_config());
    let mut ex = BacktestTradeEmitter::new(certain(), 3);
    let books = vec![
        OrderBook::new(vec![(99, 10)], vec![(101, 1)], 10000),
        OrderBook::new(vec![(149, 10)], vec![(151, 1)], 10001),
        OrderBook::new(vec![(139, 10)], vec![(141, 1)], 10002),
    ];
    assert!(replay_step(&mut ledger, &mut mm, &mut ex, &books[0]).unwrap().is_none());
    assert!(replay_step(&mut ledger, &mut mm, &mut ex, &books[1]).unwrap().is_none());
    let t = replay_step(&mut ledger, &mut mm, &mut ex, &books[2]).unwrap().expect("a fill");
    assert_eq!(t.status, TradeStatus::Filled);
    assert_eq!(t.side, Side::Buy);
    assert_eq!(ledger.get_all_trades().len(), 1);
    assert_eq!(ledger.get_all_trades()[0].status, TradeStatus::Filled);
    assert_eq!(ledger.get_orderbooks().len(), 1);
    assert_eq!(mm.net_inventory, 1);
}

#[test]
fn out_of_range_book_is_invalid() {
    let mut ledger = TradeState::new();
    let mut mm = GptMarketMaker::new("BTCUSDT".to_string(), quick_config());
    let mut ex = BacktestTradeEmitter::new(certain(), 3);
    let bad = OrderBook::new(vec![(MAX_PRICE + 1, 1)], vec![(1, 1)], 1);
    match replay_step(&mut ledger, &mut mm, &mut ex, &bad) {
        Err(TradeError::InvalidOrderBook(_)) => {}
        _ => panic!("expected InvalidOrderBook"),
    }
    assert!(ledger.get_all_trades().is_empty());
}

#[test]
fn empty_source_gives_empty_ledger() {
    let engine = BacktestEngine::new(BacktestConfig::default());
    let mut mm = GptMarketMaker::new("BTCUSDT".to_string(), quick_config());
    let ledger = engine.run_backtest_with_custom_strategy(&[], &mut mm, 1).unwrap();
    assert!(ledger.get_all_trades().is_empty());
}

#[test]
fn run_over_books_keeps_one_book_per_trade() {
    let engine = BacktestEngine::new(certain());
    let mut mm = GptMarketMaker::new("BTCUSDT".to_string(), quick_config());
    let mut books = Vec::new();
    for i in 0..50u64 {
        let mid = 100 + (i % 7) * 3;
        books.push(OrderBook::new(vec![(mid - 1, 10 - (i % 3))], vec![(mid + 1, 1 + (i % 4))], 10000 + i as i64));
    }
    let ledger = engine.run_backtest_with_custom_strategy(&books, &mut mm, 9).unwrap();
    assert_eq!(ledger.get_all_trades().len(), ledger.get_orderbooks().len());
    assert!(ledger.get_all_trades().len() <= books.len());
    let fails = ledger.get_failed_trades().len();
    assert_eq!(ledger.get_trades_history().len() + fails, ledger.get_all_trades().len());
}

#[test]
fn strategy_by_name() {
    assert!(build_strategy(&"gpt".to_string(), "BTCUSDT".to_string(), GptMarketMakerConfig::default()).is_ok());
    match build_strategy(&"other".to_string(), "BTCUSDT".to_string(), GptMarketMakerConfig::default()) {
        Err(TradeError::InvalidTradeParameters(_)) => {}
        _ => panic!("expected InvalidTradeParameters"),
    }
}

#[test]
fn ledger_status_and_positions() {
    let mut ledger = TradeState::new();
    let a = Trade::new(5, "BTCUSDT".to_string(), Side::Buy, 100, 2);
    let id = a.id.clone();
    ledger.add(a);
    ledger.add(filled("BTCUSDT", Side::Sell, 1, 6));
    ledger.add(filled("ETHUSDT", Side::Buy, 7, 7));
    assert!(ledger.change_status(&id, TradeStatus::Filled));
    assert!(!ledger.change_status(&"missing".to_string(), TradeStatus::Filled));
    assert_eq!(ledger.get_position(&"BTCUSDT".to_string()), 1);
    assert_eq!(ledger.get_position(&"ETHUSDT".to_string()), 7);
    assert_eq!(ledger.get_trades_history().len(), 3);
    assert!(ledger.get_failed_trades().is_empty());
    assert_eq!(ledger.position_age_at(&"BTCUSDT".to_string(), 100), 94);
    assert_eq!(ledger.position_age_at(&"SOLUSDT".to_string(), 100), 0);
    assert_eq!(ledger.recent_fills_at(&"BTCUSDT".to_string(), 94, 100), vec!["filled".to_string()]);
    assert_eq!(ledger.recent_fills_at(&"BTCUSDT".to_string(), 95, 100).len(), 2);
    assert!(ledger.get_position_age(&"BTCUSDT".to_string()) > 0);
    assert_eq!(ledger.get_recent_fills(&"BTCUSDT".to_string(), 10).len(), 0);
}
