use happytest::reader::{ReaderConfig, WsRequest};

#[test]
fn test_config_default() {
    let config = ReaderConfig::default();
    assert_eq!(config.symbol, "ETHUSDT");
    assert_eq!(config.interval_seconds, 10);
    assert_eq!(config.output_dir, "./data");
    assert!(!config.testnet);
    assert_eq!(config.depth, 50);
    assert_eq!(config.duration_seconds, 3600);
    assert!(config.save_parquet);
}

fn request_json(req: &WsRequest) -> String {
    let mut fields = serde_json::Map::new();
    fields.insert("op".to_string(), serde_json::Value::String(req.op.clone()));
    let args = req.args.iter().map(|a| serde_json::Value::String(a.clone())).collect();
    fields.insert("args".to_string(), serde_json::Value::Array(args));
    serde_json::to_string(&serde_json::Value::Object(fields)).unwrap()
}

#[test]
fn test_create_subscribe_request() {
    let req = WsRequest::subscribe(vec!["ETHUSDT".to_string()], 50);
    assert_eq!(req.op, "subscribe");
    assert_eq!(req.args, vec!["orderbook.50.ETHUSDT"]);
    let json = request_json(&req);
    assert!(json.contains("\"op\":\"subscribe\""));
    assert!(json.contains("orderbook.50.ETHUSDT"));
}

#[test]
fn test_create_ping_request() {
    let req = WsRequest::ping();
    assert_eq!(req.op, "ping");
    assert!(req.args.is_empty());
    let json = request_json(&req);
    assert!(json.contains("\"op\":\"ping\""));
}

#[test]
fn subscribe_topics_for_several_symbols_and_depths() {
    let req = WsRequest::subscribe(vec!["BTCUSDT".to_string(), "ETHUSDT".to_string()], 1);
    assert_eq!(req.args, vec!["orderbook.1.BTCUSDT", "orderbook.1.ETHUSDT"]);
    let req = WsRequest::subscribe(vec!["SOLUSDT".to_string()], 200);
    assert_eq!(req.args, vec!["orderbook.200.SOLUSDT"]);
}

#[test]
fn ws_url_follows_network() {
    let mut config = ReaderConfig::default();
    assert_eq!(config.ws_url(), "wss://stream.bybit.com/v5/public/linear");
    config.testnet = true;
    assert_eq!(config.ws_url(), "wss://stream-testnet.bybit.com/v5/public/linear");
}
