use happytest::dashboard::TradeDashboard;
use happytest::ledger::TradeState;
use happytest::models::{ClosedTrade, Side, Trade, TradeStatus};
use happytest::order_book::OrderBook;
use happytest::trading::metrics::{MetricsCalculator, calculate_max_drawdown};

fn closed(pnl: i128) -> ClosedTrade {
    ClosedTrade { open_side: Side::Buy, quantity: 1, open_price: 100, close_side: Side::Sell, close_price: 100, pnl }
}

#[test]
fn drawdown_from_peak() {
    assert_eq!(calculate_max_drawdown(&[20, 10, 20]), (5000, 10));
    assert_eq!(calculate_max_drawdown(&[]), (0, 0));
    assert_eq!(calculate_max_drawdown(&[5, 7, 9]), (0, 0));
    assert_eq!(calculate_max_drawdown(&[-5, -10]), (0, 5));
    assert_eq!(calculate_max_drawdown(&[0, 100, 40, 90, 10]), (9000, 90));
}

#[test]
fn metrics_over_realized_series() {
    let mut m = MetricsCalculator::new();
    m.add_closed_trade(closed(20));
    m.add_closed_trade(closed(-10));
    m.add_closed_trade(closed(10));
    assert_eq!(m.get_cumulative_pnl(), &vec![20, 10, 20]);
    let r = m.calculate_metrics();
    assert_eq!(r.total_trades, 3);
    assert_eq!(r.winning_trades, 2);
    assert_eq!(r.losing_trades, 1);
    assert_eq!(r.total_pnl, 20);
    assert_eq!(r.max_drawdown, 10);
    assert_eq!(r.gross_profit, 30);
    assert_eq!(r.gross_loss, 10);
    assert_eq!(m.get_closed_trades().len(), 3);
    let empty = MetricsCalculator::new().calculate_metrics();
    assert_eq!(empty.total_trades, 0);
    assert_eq!(empty.max_drawdown, 0);
}

fn filled(side: Side, price: u64, quantity: u64, time: i64) -> Trade {
    let mut t = Trade::new(time, "BTCUSDT".to_string(), side, price, quantity);
    t.status = TradeStatus::Filled;
    t
}

#[test]
fn capital_metrics_follow_the_position() {
    let mut ledger = TradeState::new();
    ledger.add(filled(Side::Buy, 100, 2, 1000));
    ledger.add(filled(Side::Sell, 110, 1, 2000));
    ledger.add(Trade::new(3000, "BTCUSDT".to_string(), Side::Buy, 100, 5));
    ledger.add_orderbook(OrderBook::new(vec![(104, 1)], vec![(106, 1)], 1500));
    ledger.add_orderbook(OrderBook::new(vec![(110, 1)], vec![(112, 1)], 2500));
    let mut d = TradeDashboard::new(ledger, 0, 100000);
    let m = d.get_capital_metrics(&"BTCUSDT".to_string());
    assert_eq!(m.max_required_capital, 25);
    assert_eq!(m.max_open_positions_value, 210);
    assert_eq!(m.average_capital_utilization, 19);
    assert_eq!(m.peak_margin_requirement, 21);
    assert_eq!(m.max_drawdown, 0);
    assert_eq!(m.max_unrealized_loss, 0);
    let costs = d.calculate_trading_costs();
    assert_eq!(costs.total_attempted_trades, 3);
    assert_eq!(costs.successful_trades, 2);
    assert_eq!(costs.failed_trades, 1);
    assert_eq!((costs.buy_trades, costs.sell_trades), (1, 1));
}

#[test]
fn capital_metrics_count_unrealized_loss() {
    let mut ledger = TradeState::new();
    ledger.add(filled(Side::Buy, 100, 1, 1000));
    ledger.add_orderbook(OrderBook::new(vec![(89, 1)], vec![(91, 1)], 1000));
    let mut d = TradeDashboard::new(ledger, 0, 100000);
    let m = d.get_capital_metrics(&"BTCUSDT".to_string());
    // value 90, margin 9, loss 10, buffer 1
    assert_eq!(m.max_required_capital, 20);
    assert_eq!(m.max_unrealized_loss, 10);
    assert_eq!(m.max_drawdown, 10);
    let none = d.get_capital_metrics(&"ETHUSDT".to_string());
    assert_eq!(none.max_required_capital, 0);
}

#[test]
fn dashboard_long_only_pnl() {
    let mut ledger = TradeState::new();
    ledger.add(filled(Side::Buy, 100, 2, 1000));
    ledger.add(filled(Side::Buy, 110, 1, 1100));
    ledger.add(filled(Side::Sell, 120, 4, 1200));
    ledger.add(filled(Side::Buy, 115, 3, 1300));
    let mut other = Trade::new(1400, "ETHUSDT".to_string(), Side::Buy, 118, 1);
    other.status = TradeStatus::Filled;
    ledger.add(other);
    let mut d = TradeDashboard::new(ledger, 0, 100000);
    let r = d.pnl(&"BTCUSDT".to_string());
    // 2 @100 and 1 @110 closed at 120; the extra unit sold closes nothing
    assert_eq!(r.total_pnl, 50);
    assert_eq!(r.closed_trades.len(), 2);
    // 3 @115 marked at the last fill's price, 118
    assert_eq!(r.unrealized_pnl, 9);
    assert_eq!(r.remaining_shares, 3);
}

#[test]
fn running_totals_of_closed_trades() {
    let c = happytest::trading::metrics::cumulative_pnl(&[closed(20), closed(-10), closed(10)]);
    assert_eq!(c, vec![20, 10, 20]);
    assert_eq!(calculate_max_drawdown(&c), (5000, 10));
}
