use happytest::models::{Side, TradeError};
use happytest::pnl::unrealized::calculate_position_unrealized_pnl;
use happytest::trading::position::{Position, PositionTracker};

fn lot(symbol: &str, quantity: u64, price: u64, side: Side) -> Position {
    Position::new(symbol.to_string(), quantity, price, side, 1000)
}

#[test]
fn close_oldest_first_with_split() {
    let mut t = PositionTracker::new();
    t.add_position(lot("BTCUSDT", 2, 100, Side::Buy));
    t.add_position(lot("BTCUSDT", 3, 110, Side::Buy));
    t.add_position(lot("ETHUSDT", 1, 2000, Side::Sell));
    assert_eq!(t.get_net_position(&"BTCUSDT".to_string()), 5);
    assert_eq!(t.get_net_position(&"ETHUSDT".to_string()), -1);
    assert_eq!(t.calculate_average_entry_price(&"BTCUSDT".to_string()), 106);
    let closed = t.close_position(&"BTCUSDT".to_string(), 4, Side::Sell).unwrap();
    assert_eq!(closed.len(), 2);
    assert_eq!((closed[0].quantity, closed[0].entry_price), (2, 100));
    assert_eq!((closed[1].quantity, closed[1].entry_price), (2, 110));
    let left = t.get_positions(&"BTCUSDT".to_string()).unwrap();
    assert_eq!(left.len(), 1);
    assert_eq!((left[0].quantity, left[0].entry_price), (1, 110));
    assert_eq!(t.get_net_position(&"BTCUSDT".to_string()), 1);
    assert_eq!(t.get_net_position(&"ETHUSDT".to_string()), -1);
    assert_eq!(t.get_all_positions().0.len(), 2);
}

#[test]
fn closing_unknown_symbol_fails() {
    let mut t = PositionTracker::new();
    match t.close_position(&"XRPUSDT".to_string(), 1, Side::Buy) {
        Err(TradeError::TradeNotFound(_)) => {}
        _ => panic!("expected TradeNotFound"),
    }
    assert!(t.get_positions(&"XRPUSDT".to_string()).is_none());
    assert_eq!(t.calculate_average_entry_price(&"XRPUSDT".to_string()), 0);
    t.add_position(lot("XRPUSDT", 1, 5, Side::Buy));
    t.reset();
    assert_eq!(t.get_net_position(&"XRPUSDT".to_string()), 0);
}

#[test]
fn lot_figures() {
    let long = lot("BTCUSDT", 2, 100, Side::Buy);
    assert_eq!(long.get_pnl(110), 20);
    assert_eq!(long.get_pnl_bps(110), 1000);
    assert_eq!(long.get_age_ms(1500), 500);
    let short = lot("BTCUSDT", 2, 100, Side::Sell);
    assert_eq!(short.get_pnl(110), -20);
    assert_eq!(short.get_pnl_bps(90), 1000);
    assert_eq!(short.get_pnl_bps(101), -100);
    assert_eq!(calculate_position_unrealized_pnl(3, 100, 110, true), 30);
    assert_eq!(calculate_position_unrealized_pnl(-3, 100, 110, false), -30);
}

fn filled(symbol: &str, side: Side, price: u64, quantity: u64) -> happytest::models::Trade {
    let mut t = happytest::models::Trade::new(1, symbol.to_string(), side, price, quantity);
    t.status = happytest::models::TradeStatus::Filled;
    t
}

#[test]
fn last_prices_by_symbol() {
    let trades = vec![
        filled("BTCUSDT", Side::Buy, 100, 1),
        filled("ETHUSDT", Side::Sell, 2000, 1),
        filled("BTCUSDT", Side::Sell, 105, 1),
        filled("BTCUSDT", Side::Buy, 102, 1),
    ];
    let lasts = happytest::pnl::unrealized::get_last_prices(&trades);
    assert_eq!(lasts, vec![("BTCUSDT".to_string(), 102, 105), ("ETHUSDT".to_string(), 0, 2000)]);
}

#[test]
fn unrealized_of_open_trades() {
    let filled_orders = vec![
        filled("CC", Side::Buy, 100, 1),
        filled("CC", Side::Sell, 110, 1),
        filled("AA", Side::Sell, 50, 1),
    ];
    let open = vec![
        ("CC".to_string(), vec![filled("CC", Side::Buy, 104, 2), filled("CC", Side::Sell, 103, 1)]),
        ("AA".to_string(), vec![filled("AA", Side::Sell, 55, 1)]),
    ];
    let (total, by_asset, remaining) = happytest::pnl::unrealized::calculate_unrealized_pnl(&open, &filled_orders);
    // CC marked at its last price 110: (110 - 104) * 2 + (103 - 110) * 1 = 5;
    // AA marked at 50: (55 - 50) * 1 = 5
    assert_eq!(by_asset, vec![("CC".to_string(), 5), ("AA".to_string(), 5)]);
    assert_eq!(remaining, vec![("CC".to_string(), 1), ("AA".to_string(), -1)]);
    assert_eq!(total, 10);
}

#[test]
fn trading_metrics_default_is_zero() {
    let m = happytest::trading::metrics::TradingMetrics::default();
    assert_eq!(m.total_trades, 0);
    assert_eq!(m.total_pnl, 0);
}
