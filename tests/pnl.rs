use happytest::models::{Side, Trade, TradeStatus};
use happytest::pnl::calculator::{PnlMethod, PnlReport};

fn create_test_trade(symbol: &str, side: Side, price: u64, quantity: u64, timestamp: i64) -> Trade {
    Trade {
        id: uuid::Uuid::new_v4().to_string(),
        time: timestamp,
        symbol: symbol.to_string(),
        side,
        price,
        quantity,
        status: TradeStatus::Filled,
    }
}

#[test]
fn test_fifo_simple_profit() {
    let trades = vec![
        create_test_trade("BTCUSDT", Side::Buy, 100, 1, 1000),
        create_test_trade("BTCUSDT", Side::Sell, 110, 1, 2000),
    ];
    let calculator = PnlReport::new();
    let result = calculator.calculate(&trades, PnlMethod::Fifo);
    assert_eq!(result.total_pnl, 10);
    assert_eq!(result.closed_trades.len(), 1);
}

#[test]
fn test_fifo_simple_loss() {
    let trades = vec![
        create_test_trade("BTCUSDT", Side::Buy, 100, 1, 1000),
        create_test_trade("BTCUSDT", Side::Sell, 90, 1, 2000),
    ];
    let calculator = PnlReport::new();
    let result = calculator.calculate(&trades, PnlMethod::Fifo);
    assert_eq!(result.total_pnl, -10);
    assert_eq!(result.closed_trades.len(), 1);
}

#[test]
fn test_fifo_partial_fill() {
    let trades = vec![
        create_test_trade("BTCUSDT", Side::Buy, 100, 2, 1000),
        create_test_trade("BTCUSDT", Side::Sell, 110, 1, 2000),
    ];
    let calculator = PnlReport::new();
    let result = calculator.calculate(&trades, PnlMethod::Fifo);
    assert_eq!(result.total_pnl, 10);
    assert_eq!(result.closed_trades.len(), 1);
    assert_eq!(result.remaining_shares, 1);
}

#[test]
fn test_fifo_multiple_buys() {
    let trades = vec![
        create_test_trade("BTCUSDT", Side::Buy, 100, 1, 1000),
        create_test_trade("BTCUSDT", Side::Buy, 110, 1, 2000),
        create_test_trade("BTCUSDT", Side::Sell, 120, 2, 3000),
    ];
    let calculator = PnlReport::new();
    let result = calculator.calculate(&trades, PnlMethod::Fifo);
    assert_eq!(result.total_pnl, 30);
    assert_eq!(result.closed_trades.len(), 2);
}

#[test]
fn test_position_simple_profit() {
    let trades = vec![
        create_test_trade("BTCUSDT", Side::Buy, 100, 1, 1000),
        create_test_trade("BTCUSDT", Side::Sell, 110, 1, 2000),
    ];
    let calculator = PnlReport::new();
    let result = calculator.calculate(&trades, PnlMethod::Position);
    assert_eq!(result.total_pnl, 10);
    assert_eq!(result.closed_trades.len(), 1);
}

#[test]
fn test_position_averaging() {
    let trades = vec![
        create_test_trade("BTCUSDT", Side::Buy, 100, 1, 1000),
        create_test_trade("BTCUSDT", Side::Buy, 110, 1, 2000),
        create_test_trade("BTCUSDT", Side::Sell, 120, 2, 3000),
    ];
    let calculator = PnlReport::new();
    let result = calculator.calculate(&trades, PnlMethod::Position);
    assert_eq!(result.total_pnl, 30);
    assert_eq!(result.closed_trades.len(), 1);
}

#[test]
fn test_position_short_trade() {
    let trades = vec![
        create_test_trade("BTCUSDT", Side::Sell, 100, 1, 1000),
        create_test_trade("BTCUSDT", Side::Buy, 90, 1, 2000),
    ];
    let calculator = PnlReport::new();
    let result = calculator.calculate(&trades, PnlMethod::Position);
    assert_eq!(result.total_pnl, 10);
    assert_eq!(result.closed_trades.len(), 1);
}

#[test]
fn test_multiple_symbols() {
    let trades = vec![
        create_test_trade("BTCUSDT", Side::Buy, 100, 1, 1000),
        create_test_trade("ETHUSDT", Side::Buy, 2000, 1, 1500),
        create_test_trade("BTCUSDT", Side::Sell, 110, 1, 2000),
        create_test_trade("ETHUSDT", Side::Sell, 2100, 1, 2500),
    ];
    let calculator = PnlReport::new();
    let result = calculator.calculate(&trades, PnlMethod::Fifo);
    assert_eq!(result.total_pnl, 110);
    assert_eq!(result.closed_trades.len(), 2);
}

#[test]
fn test_metrics_calculation() {
    let trades = vec![
        create_test_trade("BTCUSDT", Side::Buy, 100, 1, 1000),
        create_test_trade("BTCUSDT", Side::Sell, 110, 1, 2000),
        create_test_trade("BTCUSDT", Side::Buy, 105, 1, 3000),
        create_test_trade("BTCUSDT", Side::Sell, 100, 1, 4000),
    ];
    let calculator = PnlReport::new();
    let result = calculator.calculate(&trades, PnlMethod::Fifo);
    assert_eq!(result.total_pnl, 5);
    assert_eq!(result.closed_trades.len(), 2);
}

#[test]
fn test_max_drawdown() {
    let trades = vec![
        create_test_trade("BTCUSDT", Side::Buy, 100, 1, 1000),
        create_test_trade("BTCUSDT", Side::Sell, 120, 1, 2000),
        create_test_trade("BTCUSDT", Side::Buy, 110, 1, 3000),
        create_test_trade("BTCUSDT", Side::Sell, 100, 1, 4000),
        create_test_trade("BTCUSDT", Side::Buy, 105, 1, 5000),
        create_test_trade("BTCUSDT", Side::Sell, 115, 1, 6000),
    ];
    let calculator = PnlReport::new();
    let result = calculator.calculate(&trades, PnlMethod::Fifo);
    assert_eq!(result.total_pnl, 20);
}

#[test]
fn test_empty_trades() {
    let trades: Vec<Trade> = vec![];
    let calculator = PnlReport::new();
    let result = calculator.calculate(&trades, PnlMethod::Fifo);
    assert_eq!(result.total_pnl, 0);
    assert_eq!(result.closed_trades.len(), 0);
}

#[test]
fn test_only_unfilled_trades() {
    let mut trades = vec![
        create_test_trade("BTCUSDT", Side::Buy, 100, 1, 1000),
        create_test_trade("BTCUSDT", Side::Sell, 110, 1, 2000),
    ];
    for trade in &mut trades {
        trade.status = TradeStatus::Unfilled;
    }
    let calculator = PnlReport::new();
    let result = calculator.calculate(&trades, PnlMethod::Fifo);
    assert_eq!(result.total_pnl, 0);
    assert_eq!(result.closed_trades.len(), 0);
}

#[test]
fn fifo_partial_fill_leaves_one_open() {
    let trades = vec![
        create_test_trade("BTCUSDT", Side::Buy, 100, 2, 1000),
        create_test_trade("BTCUSDT", Side::Sell, 110, 1, 2000),
    ];
    let result = PnlReport::new().calculate(&trades, PnlMethod::Fifo);
    assert_eq!(result.remaining_shares, 1);
    // the open unit is marked at the last price, 110
    assert_eq!(result.unrealized_pnl, 10);
}

#[test]
fn fifo_matches_oldest_lot_first() {
    let trades = vec![
        create_test_trade("BTCUSDT", Side::Buy, 100, 1, 1000),
        create_test_trade("BTCUSDT", Side::Buy, 110, 1, 2000),
        create_test_trade("BTCUSDT", Side::Sell, 120, 2, 3000),
    ];
    let result = PnlReport::new().calculate(&trades, PnlMethod::Fifo);
    assert_eq!(result.closed_trades[0].open_price, 100);
    assert_eq!(result.closed_trades[0].pnl, 20);
    assert_eq!(result.closed_trades[1].open_price, 110);
    assert_eq!(result.closed_trades[1].pnl, 10);
    assert_eq!(result.remaining_shares, 0);
}

#[test]
fn position_averages_cost() {
    let trades = vec![
        create_test_trade("BTCUSDT", Side::Buy, 100, 1, 1000),
        create_test_trade("BTCUSDT", Side::Buy, 110, 1, 2000),
        create_test_trade("BTCUSDT", Side::Sell, 120, 2, 3000),
    ];
    let result = PnlReport::new().calculate(&trades, PnlMethod::Position);
    assert_eq!(result.closed_trades[0].open_price, 105);
    assert_eq!(result.closed_trades[0].quantity, 2);
    assert_eq!(result.closed_trades[0].pnl, 30);
}

#[test]
fn short_round_trip_both_methods() {
    let trades = vec![
        create_test_trade("BTCUSDT", Side::Sell, 100, 1, 1000),
        create_test_trade("BTCUSDT", Side::Buy, 90, 1, 2000),
    ];
    assert_eq!(PnlReport::new().calculate(&trades, PnlMethod::Fifo).total_pnl, 10);
    assert_eq!(PnlReport::new().calculate(&trades, PnlMethod::Position).total_pnl, 10);
}

#[test]
fn position_flip_opens_the_excess() {
    let trades = vec![
        create_test_trade("BTCUSDT", Side::Buy, 100, 1, 1000),
        create_test_trade("BTCUSDT", Side::Sell, 110, 3, 2000),
        create_test_trade("BTCUSDT", Side::Buy, 100, 1, 3000),
    ];
    let result = PnlReport::new().calculate(&trades, PnlMethod::Position);
    // 10 on the long unit, then a short of 2 at 110 reduced by 1 at 100
    assert_eq!(result.total_pnl, 20);
    assert_eq!(result.remaining_shares, -1);
    assert_eq!(result.unrealized_pnl, 10);
    let fifo = PnlReport::new().calculate(&trades, PnlMethod::Fifo);
    assert_eq!(fifo.total_pnl, 20);
    assert_eq!(fifo.remaining_shares, -1);
}

#[test]
fn methods_diverge_on_averaged_lots() {
    let trades = vec![
        create_test_trade("BTCUSDT", Side::Buy, 100, 1, 1000),
        create_test_trade("BTCUSDT", Side::Buy, 110, 1, 2000),
        create_test_trade("BTCUSDT", Side::Sell, 120, 1, 3000),
    ];
    assert_eq!(PnlReport::new().calculate(&trades, PnlMethod::Fifo).total_pnl, 20);
    assert_eq!(PnlReport::new().calculate(&trades, PnlMethod::Position).total_pnl, 15);
}

#[test]
fn alternating_fills_agree() {
    let trades = vec![
        create_test_trade("BTCUSDT", Side::Buy, 100, 2, 1000),
        create_test_trade("BTCUSDT", Side::Sell, 130, 2, 2000),
        create_test_trade("ETHUSDT", Side::Sell, 2000, 1, 3000),
        create_test_trade("ETHUSDT", Side::Buy, 2100, 1, 4000),
    ];
    let f = PnlReport::new().calculate(&trades, PnlMethod::Fifo);
    let p = PnlReport::new().calculate(&trades, PnlMethod::Position);
    assert_eq!(f.total_pnl, -40);
    assert_eq!(f.total_pnl, p.total_pnl);
}

#[test]
fn calculate_is_repeatable() {
    let trades = vec![
        create_test_trade("BTCUSDT", Side::Buy, 100, 3, 1000),
        create_test_trade("BTCUSDT", Side::Sell, 104, 1, 2000),
        create_test_trade("ETHUSDT", Side::Sell, 50, 2, 2500),
    ];
    for method in [PnlMethod::Fifo, PnlMethod::Position] {
        let a = PnlReport::new().calculate(&trades, method);
        let b = PnlReport::new().calculate(&trades, method);
        assert_eq!(a.total_pnl, b.total_pnl);
        assert_eq!(a.unrealized_pnl, b.unrealized_pnl);
        assert_eq!(a.remaining_shares, b.remaining_shares);
        assert_eq!(a.closed_trades, b.closed_trades);
    }
}

#[test]
fn alternating_fills_with_empty_pair_agree() {
    let trades = vec![
        create_test_trade("BTCUSDT", Side::Buy, 100, 0, 1000),
        create_test_trade("BTCUSDT", Side::Sell, 120, 0, 2000),
        create_test_trade("BTCUSDT", Side::Sell, 100, 5, 3000),
        create_test_trade("BTCUSDT", Side::Buy, 90, 5, 4000),
    ];
    let f = PnlReport::new().calculate(&trades, PnlMethod::Fifo);
    let p = PnlReport::new().calculate(&trades, PnlMethod::Position);
    assert_eq!(f.total_pnl, 50);
    assert_eq!(p.total_pnl, 50);
}

#[test]
fn position_realizes_against_exact_cost() {
    let trades = vec![
        create_test_trade("BTCUSDT", Side::Buy, 100, 1, 1000),
        create_test_trade("BTCUSDT", Side::Buy, 101, 1, 2000),
        create_test_trade("BTCUSDT", Side::Sell, 110, 2, 3000),
    ];
    let result = PnlReport::new().calculate(&trades, PnlMethod::Position);
    assert_eq!(result.total_pnl, 19);
    assert_eq!(result.closed_trades[0].open_price, 100);
}

#[test]
fn position_partial_close_keeps_cost_share() {
    let trades = vec![
        create_test_trade("BTCUSDT", Side::Buy, 100, 1, 1000),
        create_test_trade("BTCUSDT", Side::Buy, 101, 2, 2000),
        create_test_trade("BTCUSDT", Side::Sell, 110, 1, 3000),
        create_test_trade("BTCUSDT", Side::Sell, 110, 2, 4000),
    ];
    // cost 302 for 3: first close takes 100 (302/3 rounded down), the rest 202
    let result = PnlReport::new().calculate(&trades, PnlMethod::Position);
    assert_eq!(result.closed_trades[0].pnl, 10);
    assert_eq!(result.closed_trades[1].pnl, 18);
    assert_eq!(result.total_pnl, 28);
}
