use happytest::config::{AppConfig, validate_config};
use happytest::loader::{OrderBookData, OrderBookMessage, OrderBookMessageV2, extract_symbol_from_filename, parse_decimal, parse_message, parse_message_v2};
use happytest::models::{MAX_PRICE, TradeError};
use happytest::order_book::OrderBook;

fn level(p: &str, q: &str) -> Vec<String> {
    vec![p.to_string(), q.to_string()]
}

#[test]
fn symbol_from_file_name() {
    assert_eq!(extract_symbol_from_filename("ETHUSDT_3600_sec_123.jsonl"), "ETHUSDT");
    assert_eq!(extract_symbol_from_filename("BTCUSDT.jsonl"), "BTCUSDT.jsonl");
    assert_eq!(extract_symbol_from_filename("_x"), "");
}

#[test]
fn decimals_to_units() {
    assert_eq!(parse_decimal("4646.26", 2, MAX_PRICE), Some(464626));
    assert_eq!(parse_decimal("0.47", 3, MAX_PRICE), Some(470));
    assert_eq!(parse_decimal("12.", 2, MAX_PRICE), Some(1200));
    assert_eq!(parse_decimal("7", 0, MAX_PRICE), Some(7));
    assert_eq!(parse_decimal("1.2345", 2, MAX_PRICE), None);
    assert_eq!(parse_decimal(".5", 2, MAX_PRICE), None);
    assert_eq!(parse_decimal("", 2, MAX_PRICE), None);
    assert_eq!(parse_decimal("1e5", 2, MAX_PRICE), None);
    assert_eq!(parse_decimal("-1", 2, MAX_PRICE), None);
    assert_eq!(parse_decimal("2147483648", 0, MAX_PRICE), Some(2147483648));
    assert_eq!(parse_decimal("2147483649", 0, MAX_PRICE), None);
    assert_eq!(parse_decimal("99999999999999999999999", 0, MAX_PRICE), None);
}

#[test]
fn message_to_book() {
    let msg = OrderBookMessage {
        ts: 1756134462072,
        data: OrderBookData {
            b: vec![level("4646.26", "6.46"), level("4646.01", "0.47"), vec!["1".to_string()]],
            a: vec![level("4646.96", "34.95"), level("4647.07", "2.20"), level("4647.81", "0")],
        },
    };
    let book = parse_message(&msg, 2, 2).unwrap();
    assert_eq!(book.bids, vec![(464626, 646), (464601, 47)]);
    assert_eq!(book.asks, vec![(464696, 3495), (464707, 220), (464781, 0)]);
    assert_eq!(book.current_time, 1756134462072);
    let bad = OrderBookMessage { ts: 1, data: OrderBookData { b: vec![level("x", "1")], a: vec![] } };
    match parse_message(&bad, 2, 2) {
        Err(TradeError::InvalidOrderBook(_)) => {}
        _ => panic!("expected InvalidOrderBook"),
    }
    let v2 = OrderBookMessageV2 {
        symbol: "BTCUSDT".to_string(),
        bids: vec![level("68000.00", "1.5")],
        asks: vec![level("68001.00", "2.0")],
        timestamp: 1756134462000,
        update_id: 12345678,
        fetch_time: 0,
    };
    let book = parse_message_v2(&v2, 2, 1).unwrap();
    assert_eq!(book.bids, vec![(6800000, 15)]);
    assert_eq!(book.asks, vec![(6800100, 20)]);
}

#[test]
fn derived_book_values() {
    let book = OrderBook::new(vec![(99, 30), (98, 10)], vec![(101, 10), (102, 10)], 1);
    assert_eq!(book.mid_price(), 100);
    assert_eq!(book.spread_abs(), 2);
    assert_eq!(book.spread_pct(), 20000);
    assert_eq!(book.order_book_imbalance(), 333333);
    assert_eq!(book.avg_top_bid_depth(), 20);
    let lopsided = OrderBook::new(vec![(99, 3)], vec![(101, 1)], 1);
    assert_eq!(lopsided.order_book_imbalance(), 500000);
    assert_eq!(OrderBook::new(vec![(1, 1)], vec![(2, 3)], 1).order_book_imbalance(), -500000);
    let empty = OrderBook::new(vec![], vec![(101, 1)], 1);
    assert_eq!(empty.mid_price(), 0);
    assert_eq!(empty.spread_abs(), 0);
    assert_eq!(empty.spread_pct(), 0);
    assert_eq!(empty.order_book_imbalance(), 0);
    assert_eq!(empty.avg_top_bid_depth(), 0);
    let deep = OrderBook::new((0..8).map(|i| (100 - i, 1 + i)).collect(), vec![(101, 100)], 1);
    assert_eq!(deep.avg_top_bid_depth(), 3);
}

#[test]
fn configuration_checks() {
    let cfg = AppConfig::default();
    assert!(validate_config(&cfg).is_ok());
    let mut bad = AppConfig::default();
    bad.backtest.fill_rate_ppm = 1000001;
    assert!(matches!(validate_config(&bad), Err(TradeError::InvalidTradeParameters(_))));
    let mut bad = AppConfig::default();
    bad.strategy.name = "momentum".to_string();
    assert!(matches!(validate_config(&bad), Err(TradeError::InvalidTradeParameters(_))));
    let mut bad = AppConfig::default();
    bad.strategy.gpt_market_maker = None;
    assert!(matches!(validate_config(&bad), Err(TradeError::InvalidTradeParameters(_))));
    // strategy settings are checked when the strategy is built, not here
    let mut wide = AppConfig::default();
    if let Some(g) = wide.strategy.gpt_market_maker.as_mut() {
        g.vwap_window = 5000;
    }
    assert!(validate_config(&wide).is_ok());
    let mut slip = AppConfig::default();
    slip.backtest.slippage_ppm = 5000000;
    assert!(validate_config(&slip).is_ok());
    let mut bad = AppConfig::default();
    bad.data.batch_size = 0;
    assert!(matches!(validate_config(&bad), Err(TradeError::InvalidTradeParameters(_))));
}
