use happytest::models::{Side, Trade, TradeStatus};
use happytest::order_book::OrderBook;
use happytest::strategy::gpt_market_maker::{GptMarketMaker, GptMarketMakerConfig};

fn config(max_volatility_threshold: u64) -> GptMarketMakerConfig {
    GptMarketMakerConfig {
        fix_order_volume: 1,
        vwap_window: 2,
        obi_threshold: 100000,
        max_inventory: 1000,
        use_limit_orders: false,
        limit_order_spread_bps: 5,
        take_profit_bps: 20,
        stop_loss_bps: 50,
        max_position_age_ms: 300000,
        inventory_reduction_threshold: 700000,
        aggressive_close_threshold: 900000,
        min_profit_bps: 5,
        volatility_window: 3,
        max_volatility_threshold,
        volatility_cooldown_ms: 5000,
        momentum_window: 10,
        momentum_threshold: 4294967296,
        momentum_cooldown_ms: 3000,
    }
}

fn book(bid: u64, ask: u64, time: i64) -> OrderBook {
    OrderBook::new(vec![(bid, 10)], vec![(ask, 1)], time)
}

fn fill(side: Side, price: u64, quantity: u64, time: i64) -> Trade {
    let mut t = Trade::new(time, "BTCUSDT".to_string(), side, price, quantity);
    t.status = TradeStatus::Filled;
    t
}

#[test]
fn volatility_breach_blocks_entries_until_cooldown_ends() {
    let mut mm = GptMarketMaker::new("BTCUSDT".to_string(), config(50000));
    assert!(mm.propose_trade(&book(99, 101, 10000)).is_none());
    assert!(mm.propose_trade(&book(99, 101, 10001)).is_none());
    // mid jumps from 100 to 150: the volatility filter trips
    assert!(mm.propose_trade(&book(149, 151, 10002)).is_none());
    assert_eq!(mm.last_high_volatility_time, 10002);
    // favourable book (mid 140 below the VWAP of 145, bids heavy) inside the cooldown
    assert!(mm.propose_trade(&book(139, 141, 10003)).is_none());
    assert_eq!(mm.last_high_volatility_time, 10002);
    // after the cooldown a favourable book opens a position
    let t = mm.propose_trade(&book(134, 136, 15003)).expect("entry after cooldown");
    assert_eq!(t.side, Side::Buy);
    assert_eq!(t.price, 136);
    assert_eq!(t.quantity, 1);
    assert_eq!(t.time, 15003);
    assert_eq!(t.status, TradeStatus::Pending);
}

#[test]
fn without_breach_the_same_book_opens() {
    let mut mm = GptMarketMaker::new("BTCUSDT".to_string(), config(4294967296));
    assert!(mm.propose_trade(&book(99, 101, 10000)).is_none());
    assert!(mm.propose_trade(&book(99, 101, 10001)).is_none());
    assert!(mm.propose_trade(&book(149, 151, 10002)).is_none());
    let t = mm.propose_trade(&book(139, 141, 10003)).expect("entry");
    assert_eq!(t.side, Side::Buy);
    assert_eq!(t.price, 141);
}

#[test]
fn empty_side_changes_nothing() {
    let mut mm = GptMarketMaker::new("BTCUSDT".to_string(), config(50000));
    assert!(mm.propose_trade(&OrderBook::new(vec![], vec![(101, 1)], 1)).is_none());
    assert!(mm.price_history.is_empty());
}

#[test]
fn fills_open_and_close_lots_oldest_first() {
    let mut mm = GptMarketMaker::new("BTCUSDT".to_string(), config(50000));
    mm.update_position(&fill(Side::Buy, 100, 2, 1), true);
    mm.update_position(&fill(Side::Buy, 110, 2, 2), true);
    assert_eq!(mm.net_inventory, 4);
    assert_eq!(mm.avg_entry_price, 105);
    mm.update_position(&fill(Side::Sell, 120, 3, 3), true);
    assert_eq!(mm.net_inventory, 1);
    assert_eq!(mm.positions.len(), 1);
    assert_eq!(mm.positions[0].quantity, 1);
    assert_eq!(mm.positions[0].entry_price, 110);
    assert_eq!(mm.avg_entry_price, 110);
    // an unfilled report is ignored
    mm.update_position(&fill(Side::Sell, 120, 1, 4), false);
    assert_eq!(mm.net_inventory, 1);
    assert_eq!(mm.get_position(&"BTCUSDT".to_string()), 1);
    assert_eq!(mm.get_position(&"ETHUSDT".to_string()), 0);
}

#[test]
fn take_profit_closes_long_inventory() {
    let mut cfg = config(4294967296);
    cfg.use_limit_orders = true;
    let mut mm = GptMarketMaker::new("BTCUSDT".to_string(), cfg);
    mm.update_position(&fill(Side::Buy, 100, 3, 10000), true);
    assert!(mm.propose_trade(&book(109, 111, 10001)).is_none());
    // mid 110 is 1000 bps above the entry: sell min(1, 3) at max(bid, 100 * 1.0005)
    let t = mm.propose_trade(&book(109, 111, 10002)).expect("exit");
    assert_eq!(t.side, Side::Sell);
    assert_eq!(t.quantity, 1);
    assert_eq!(t.price, 109);
}

#[test]
fn reset_clears_state() {
    let mut mm = GptMarketMaker::new("BTCUSDT".to_string(), config(50000));
    mm.update_position(&fill(Side::Buy, 100, 2, 1), true);
    mm.propose_trade(&book(99, 101, 10000));
    mm.reset();
    assert_eq!(mm.net_inventory, 0);
    assert!(mm.positions.is_empty());
    assert!(mm.prices.is_empty());
    assert_eq!(mm.name(), "GPT Market Maker");
}

#[test]
fn config_validation() {
    assert!(GptMarketMakerConfig::default().validate().is_ok());
    let mut cfg = GptMarketMakerConfig::default();
    cfg.vwap_window = 0;
    assert!(cfg.validate().is_err());
}

#[test]
fn exit_weighs_lots_by_quantity() {
    // long 1 @100 and 1 @200 marked at 150: +5000 and -2500 bps, mean +1250 bps
    let mut mm = GptMarketMaker::new("BTCUSDT".to_string(), config(4294967296));
    mm.update_position(&fill(Side::Buy, 100, 1, 10000), true);
    mm.update_position(&fill(Side::Buy, 200, 1, 10000), true);
    assert!(mm.propose_trade(&book(149, 151, 10001)).is_none());
    let t = mm.propose_trade(&book(149, 151, 10002)).expect("take profit");
    assert_eq!(t.side, Side::Sell);
    assert_eq!(t.quantity, 1);
}
