//! Settings and message shapes of the live order-book recorder.
use vstd::prelude::*;

verus! {

/// Settings of the live recorder.
pub struct ReaderConfig {
    /// Symbol to record, e.g. "BTCUSDT".
    pub symbol: String,
    /// Seconds between flushes to storage.
    pub interval_seconds: u64,
    /// Directory of the output files.
    pub output_dir: String,
    /// Whether to use the test network.
    pub testnet: bool,
    /// Book depth to subscribe to.
    pub depth: u32,
    /// Seconds to run; zero for no limit.
    pub duration_seconds: u64,
    /// Whether to write Parquet files besides JSON lines.
    pub save_parquet: bool,
}

impl Default for ReaderConfig {
    fn default() -> (r: ReaderConfig)
        ensures
            r.symbol@ == "ETHUSDT"@,
            r.interval_seconds == 10,
            r.output_dir@ == "./data"@,
            !r.testnet,
            r.depth == 50,
            r.duration_seconds == 3600,
            r.save_parquet,
    {
        ReaderConfig {
            symbol: String::from_str("ETHUSDT"),
            output_dir: String::from_str("./data"),
            testnet: false,
            depth: 50,
            duration_seconds: 3600,
            save_parquet: true,
            interval_seconds: 10,
        }
    }
}

impl ReaderConfig {
    /// Address of the public linear-contract stream of the chosen network.
    pub fn ws_url(&self) -> (r: &'static str)
        ensures
            r@ == if self.testnet {
                "wss://stream-testnet.bybit.com/v5/public/linear"@
            } else {
                "wss://stream.bybit.com/v5/public/linear"@
            },
    {
        if self.testnet {
            "wss://stream-testnet.bybit.com/v5/public/linear"
        } else {
            "wss://stream.bybit.com/v5/public/linear"
        }
    }
}

/// Settings of a storage writer.
pub struct WriterConfig {
    pub base_filename: String,
    pub buffer_size: usize,
}

impl Default for WriterConfig {
    fn default() -> (r: WriterConfig)
        ensures
            r.base_filename@.len() == 0,
            r.buffer_size == 1000,
    {
        WriterConfig { base_filename: String::new(), buffer_size: 1000 }
    }
}

/// Snapshot response of the REST order-book endpoint.
pub struct BybitResponse {
    pub ret_code: i32,
    pub ret_msg: String,
    pub result: OrderbookResult,
    pub time: i64,
}

/// Book of a REST response: symbol, bid and ask levels as strings,
/// timestamp and update id.
pub struct OrderbookResult {
    pub s: String,
    pub b: Vec<Vec<String>>,
    pub a: Vec<Vec<String>>,
    pub ts: i64,
    pub u: i64,
}

/// A recorded book.
pub struct OrderbookData {
    pub symbol: String,
    pub bids: Vec<Vec<String>>,
    pub asks: Vec<Vec<String>>,
    pub timestamp: i64,
    pub update_id: i64,
    pub fetch_time: i64,
}

/// A request on the stream.
pub struct WsRequest {
    pub op: String,
    pub args: Vec<String>,
}

/// A message of the stream: a reply to a request, or a book update.
pub struct WsResponse {
    pub topic: Option<String>,
    pub success: Option<bool>,
    pub ret_msg: Option<String>,
    pub conn_id: Option<String>,
    pub op: Option<String>,
    pub msg_type: Option<String>,
    pub ts: Option<i64>,
    pub data: Option<WsOrderbookData>,
    pub cts: Option<i64>,
}

/// Book update carried by a stream message.
pub struct WsOrderbookData {
    pub s: String,
    pub b: Vec<Vec<String>>,
    pub a: Vec<Vec<String>>,
    pub u: i64,
    pub seq: Option<i64>,
}

/// Decimal digits of `n`, most significant first.
pub open spec fn decimal_string(n: nat) -> Seq<char>
    decreases n,
{
    if n < 10 {
        seq![digit_char(n)]
    } else {
        decimal_string(n / 10).push(digit_char(n % 10))
    }
}

pub open spec fn digit_char(d: nat) -> char {
    if d == 0 { '0' } else if d == 1 { '1' } else if d == 2 { '2' } else if d == 3 { '3' } else if d == 4 {
        '4'
    } else if d == 5 { '5' } else if d == 6 { '6' } else if d == 7 { '7' } else if d == 8 { '8' } else { '9' }
}

fn digit_str(d: u32) -> (r: &'static str)
    requires
        d < 10,
    ensures
        r@ == seq![digit_char(d as nat)],
{
    proof {
        reveal_strlit("0");
        reveal_strlit("1");
        reveal_strlit("2");
        reveal_strlit("3");
        reveal_strlit("4");
        reveal_strlit("5");
        reveal_strlit("6");
        reveal_strlit("7");
        reveal_strlit("8");
        reveal_strlit("9");
    }
    if d == 0 { "0" } else if d == 1 { "1" } else if d == 2 { "2" } else if d == 3 { "3" } else if d == 4 {
        "4"
    } else if d == 5 { "5" } else if d == 6 { "6" } else if d == 7 { "7" } else if d == 8 { "8" } else { "9" }
}

/// `n` in decimal.
pub fn decimal(n: u32) -> (r: String)
    ensures
        r@ == decimal_string(n as nat),
    decreases n,
{
    if n < 10 {
        String::from_str(digit_str(n))
    } else {
        let mut s = decimal(n / 10);
        s.append(digit_str(n % 10));
        s
    }
}

/// Topic of the book stream of `symbol` at `depth`: "orderbook.<depth>.<symbol>".
pub open spec fn book_topic(depth: nat, symbol: Seq<char>) -> Seq<char> {
    "orderbook."@ + decimal_string(depth) + "."@ + symbol
}

impl WsRequest {
    /// A subscription to the book stream of each symbol at `depth`.
    pub fn subscribe(symbols: Vec<String>, depth: u32) -> (r: WsRequest)
        ensures
            r.op@ == "subscribe"@,
            r.args@.len() == symbols@.len(),
            forall|i: int| 0 <= i < symbols@.len() ==> (#[trigger] r.args@[i])@ == book_topic(depth as nat, symbols@[i]@),
    {
        let mut args: Vec<String> = Vec::new();
        let mut i: usize = 0;
        while i < symbols.len()
            invariant
                i <= symbols@.len(),
                args@.len() == i,
                forall|j: int| 0 <= j < i ==> (#[trigger] args@[j])@ == book_topic(depth as nat, symbols@[j]@),
            decreases symbols@.len() - i,
        {
            let mut t = String::from_str("orderbook.");
            let d = decimal(depth);
            t.append(d.as_str());
            t.append(".");
            t.append(symbols[i].as_str());
            args.push(t);
            i = i + 1;
        }
        WsRequest { op: String::from_str("subscribe"), args }
    }

    /// A keep-alive ping.
    pub fn ping() -> (r: WsRequest)
        ensures
            r.op@ == "ping"@,
            r.args@.len() == 0,
    {
        WsRequest { op: String::from_str("ping"), args: Vec::new() }
    }
}

} // verus!
