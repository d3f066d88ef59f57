//! Requests to and replies from the Binance public market data API.
//!
//! The HTTP exchange itself happens outside this library; here the request
//! URLs are built and the decoded replies are turned into market data.
use vstd::prelude::*;

use crate::data::{Kline, OrderBook, Ticker};
use crate::text::{
    decimal, parse_fixed, parse_fixed_spec, push_decimal, push_signed_decimal, signed_decimal, str_eq,
    to_uppercase, uppercase,
};

verus! {

/// Public endpoint of the exchange and optional API credentials.
pub struct BinanceExchange {
    base_url: String,
    api_key: Option<String>,
    api_secret: Option<String>,
}

/// One kline row of the `/api/v3/klines` reply, prices still as text.
#[derive(Debug, Clone)]
pub struct BinanceKline {
    pub open_time: i64,
    pub open: String,
    pub high: String,
    pub low: String,
    pub close: String,
    pub volume: String,
    pub close_time: i64,
    pub quote_volume: String,
    pub trades: u64,
}

/// The `/api/v3/ticker/24hr` reply, the price still as text.
#[derive(Debug, Clone)]
pub struct BinanceTicker {
    pub symbol: String,
    pub last_price: String,
}

/// The interval name the API uses for a timeframe: the eight supported
/// names map to themselves, anything else to one hour.
pub open spec fn interval_of(tf: Seq<char>) -> Seq<char> {
    if tf == "1m"@ {
        "1m"@
    } else if tf == "5m"@ {
        "5m"@
    } else if tf == "15m"@ {
        "15m"@
    } else if tf == "30m"@ {
        "30m"@
    } else if tf == "1h"@ {
        "1h"@
    } else if tf == "4h"@ {
        "4h"@
    } else if tf == "1d"@ {
        "1d"@
    } else if tf == "1w"@ {
        "1w"@
    } else {
        "1h"@
    }
}

/// One of the interval names the API supports.
pub open spec fn is_supported_interval(x: Seq<char>) -> bool {
    x == "1m"@ || x == "5m"@ || x == "15m"@ || x == "30m"@ || x == "1h"@ || x == "4h"@ || x == "1d"@
        || x == "1w"@
}

/// Every timeframe maps to a supported interval, and a supported interval
/// maps to itself.
pub proof fn lemma_interval_supported(tf: Seq<char>)
    ensures
        is_supported_interval(interval_of(tf)),
        is_supported_interval(tf) ==> interval_of(tf) == tf,
        interval_of(interval_of(tf)) == interval_of(tf),
{
    reveal_strlit("1m");
    reveal_strlit("5m");
    reveal_strlit("15m");
    reveal_strlit("30m");
    reveal_strlit("1h");
    reveal_strlit("4h");
    reveal_strlit("1d");
    reveal_strlit("1w");
}

/// `text` followed by the decimal digits of `v` when `v` is given.
pub open spec fn opt_param(name: Seq<char>, v: Option<i64>) -> Seq<char> {
    match v {
        Some(x) => name + signed_decimal(x as int),
        None => Seq::empty(),
    }
}

/// The smaller of a requested count and the API maximum of 1000.
pub open spec fn capped(n: int) -> int {
    if n < 1000 {
        n
    } else {
        1000
    }
}

/// The value of a price text, zero when it is not a number this library reads.
pub open spec fn price_or_zero(s: Seq<char>) -> int {
    match parse_fixed_spec(s) {
        Some(v) => v,
        None => 0,
    }
}

/// The kline a reply row stands for.
pub open spec fn kline_of_row(r: BinanceKline) -> Kline {
    Kline {
        timestamp: r.open_time,
        open: price_or_zero(r.open@) as i64,
        high: price_or_zero(r.high@) as i64,
        low: price_or_zero(r.low@) as i64,
        close: price_or_zero(r.close@) as i64,
        volume: price_or_zero(r.volume@) as i64,
        quote_volume: price_or_zero(r.quote_volume@) as i64,
        trades: r.trades,
    }
}

/// The `(price, quantity)` a book level of the reply stands for: present when
/// the level holds at least two fields and both are numbers.
pub open spec fn level_of(l: Seq<Seq<char>>) -> Option<(int, int)> {
    if l.len() >= 2 {
        match (parse_fixed_spec(l[0]), parse_fixed_spec(l[1])) {
            (Some(p), Some(q)) => Some((p, q)),
            _ => None,
        }
    } else {
        None
    }
}

/// The levels of a reply side that stand for a `(price, quantity)`, in order.
pub open spec fn levels_of(ls: Seq<Seq<Seq<char>>>) -> Seq<(i64, i64)>
    decreases ls.len(),
{
    if ls.len() == 0 {
        Seq::empty()
    } else {
        let prev = levels_of(ls.drop_last());
        match level_of(ls.last()) {
            Some(pq) => prev.push((pq.0 as i64, pq.1 as i64)),
            None => prev,
        }
    }
}

/// The text of the fields of the book levels.
pub open spec fn level_texts(ls: Seq<Vec<String>>) -> Seq<Seq<Seq<char>>> {
    Seq::new(ls.len(), |i: int| Seq::new(ls[i]@.len(), |j: int| ls[i]@[j]@))
}

/// The price a text stands for, zero when it is not a number this library reads.
fn price_or_zero_exec(s: &String) -> (v: i64)
    ensures
        v == price_or_zero(s@),
{
    match parse_fixed(s.as_str()) {
        Some(v) => v,
        None => 0,
    }
}

/// The `(price, quantity)` of one book level, as `level_of` states.
fn level_exec(l: &Vec<String>) -> (r: Option<(i64, i64)>)
    ensures
        match level_of(Seq::new(l@.len(), |j: int| l@[j]@)) {
            Some(pq) => r == Some((pq.0 as i64, pq.1 as i64)) && r is Some,
            None => r is None,
        },
{
    let ghost t = Seq::new(l@.len(), |j: int| l@[j]@);
    if l.len() >= 2 {
        let p = parse_fixed(l[0].as_str());
        let q = parse_fixed(l[1].as_str());
        proof {
            assert(t[0] == l@[0]@);
            assert(t[1] == l@[1]@);
        }
        match (p, q) {
            (Some(p), Some(q)) => Some((p, q)),
            _ => None,
        }
    } else {
        None
    }
}

impl BinanceExchange {
    /// The API endpoint requests go to.
    pub closed spec fn base_url_spec(&self) -> Seq<char> {
        self.base_url@
    }

    /// The API key, when one is set.
    pub closed spec fn api_key_spec(&self) -> Option<Seq<char>> {
        match self.api_key {
            Some(k) => Some(k@),
            None => None,
        }
    }

    /// The API secret, when one is set.
    pub closed spec fn api_secret_spec(&self) -> Option<Seq<char>> {
        match self.api_secret {
            Some(k) => Some(k@),
            None => None,
        }
    }

    /// The public endpoint, without credentials.
    pub fn new() -> (e: Self)
        ensures
            e.base_url_spec() == "https://api.binance.com"@,
            e.api_key_spec() is None,
            e.api_secret_spec() is None,
    {
        BinanceExchange { base_url: String::from_str("https://api.binance.com"), api_key: None, api_secret: None }
    }

    /// The same endpoint with API credentials.
    pub fn with_credentials(self, api_key: String, api_secret: String) -> (e: Self)
        ensures
            e.base_url_spec() == self.base_url_spec(),
            e.api_key_spec() == Some(api_key@),
            e.api_secret_spec() == Some(api_secret@),
    {
        let mut e = self;
        e.api_key = Some(api_key);
        e.api_secret = Some(api_secret);
        e
    }

    /// The interval name the API uses for `timeframe`.
    pub fn timeframe_to_interval(&self, timeframe: &str) -> (r: &str)
        ensures
            r@ == interval_of(timeframe@),
    {
        if str_eq(timeframe, "1m") {
            "1m"
        } else if str_eq(timeframe, "5m") {
            "5m"
        } else if str_eq(timeframe, "15m") {
            "15m"
        } else if str_eq(timeframe, "30m") {
            "30m"
        } else if str_eq(timeframe, "1h") {
            "1h"
        } else if str_eq(timeframe, "4h") {
            "4h"
        } else if str_eq(timeframe, "1d") {
            "1d"
        } else if str_eq(timeframe, "1w") {
            "1w"
        } else {
            "1h"
        }
    }

    /// URL of the klines of `symbol` (in upper case) on `timeframe`, from
    /// `start_time` to `end_time` in milliseconds and at most `limit` of them
    /// (capped at 1000), each when given.
    pub fn klines_url(
        &self,
        symbol: &str,
        timeframe: &str,
        start_time: Option<i64>,
        end_time: Option<i64>,
        limit: Option<usize>,
    ) -> (url: String)
        ensures
            url@ == self.base_url_spec() + "/api/v3/klines?symbol="@ + uppercase(symbol@) + "&interval="@
                + interval_of(timeframe@) + opt_param("&startTime="@, start_time) + opt_param(
                "&endTime="@,
                end_time,
            ) + match limit {
                Some(l) => "&limit="@ + decimal(capped(l as int) as nat),
                None => Seq::empty(),
            },
    {
        let interval = self.timeframe_to_interval(timeframe);
        let upper = to_uppercase(symbol);
        let mut url = self.base_url.clone();
        url.append("/api/v3/klines?symbol=");
        url.append(upper.as_str());
        url.append("&interval=");
        url.append(interval);
        let ghost before_start = url@;
        if let Some(start) = start_time {
            url.append("&startTime=");
            push_signed_decimal(&mut url, start);
        }
        proof {
            assert(url@ =~= before_start + opt_param("&startTime="@, start_time));
        }
        let ghost before_end = url@;
        if let Some(end) = end_time {
            url.append("&endTime=");
            push_signed_decimal(&mut url, end);
        }
        proof {
            assert(url@ =~= before_end + opt_param("&endTime="@, end_time));
        }
        let ghost before_limit = url@;
        if let Some(lim) = limit {
            url.append("&limit=");
            let capped_limit = if lim < 1000 {
                lim
            } else {
                1000
            };
            push_decimal(&mut url, capped_limit as u64);
        }
        proof {
            assert(url@ =~= before_limit + match limit {
                Some(l) => "&limit="@ + decimal(capped(l as int) as nat),
                None => Seq::empty(),
            });
        }
        url
    }

    /// URL of the 24-hour ticker of `symbol` (in upper case).
    pub fn ticker_url(&self, symbol: &str) -> (url: String)
        ensures
            url@ == self.base_url_spec() + "/api/v3/ticker/24hr?symbol="@ + uppercase(symbol@),
    {
        let upper = to_uppercase(symbol);
        let mut url = self.base_url.clone();
        url.append("/api/v3/ticker/24hr?symbol=");
        url.append(upper.as_str());
        url
    }

    /// URL of the order book of `symbol` (in upper case) with `depth` levels
    /// (100 when not given, capped at 1000).
    pub fn depth_url(&self, symbol: &str, depth: Option<usize>) -> (url: String)
        ensures
            url@ == self.base_url_spec() + "/api/v3/depth?symbol="@ + uppercase(symbol@) + "&limit="@
                + decimal(
                capped(
                    match depth {
                        Some(d) => d as int,
                        None => 100,
                    },
                ) as nat,
            ),
    {
        let upper = to_uppercase(symbol);
        let requested = match depth {
            Some(d) => d,
            None => 100,
        };
        let limit = if requested < 1000 {
            requested
        } else {
            1000
        };
        let mut url = self.base_url.clone();
        url.append("/api/v3/depth?symbol=");
        url.append(upper.as_str());
        url.append("&limit=");
        push_decimal(&mut url, limit as u64);
        url
    }
}

/// The klines the reply rows stand for; a price that is not a number reads as zero.
pub fn klines_from_rows(rows: &[BinanceKline]) -> (ks: Vec<Kline>)
    ensures
        ks@.len() == rows@.len(),
        forall|i: int| 0 <= i < rows@.len() ==> #[trigger] ks@[i] == kline_of_row(rows@[i]),
{
    let mut ks: Vec<Kline> = Vec::with_capacity(rows.len());
    for i in 0..rows.len()
        invariant
            ks@.len() == i,
            forall|k: int| 0 <= k < i ==> #[trigger] ks@[k] == kline_of_row(rows@[k]),
    {
        let r = &rows[i];
        ks.push(
            Kline {
                timestamp: r.open_time,
                open: price_or_zero_exec(&r.open),
                high: price_or_zero_exec(&r.high),
                low: price_or_zero_exec(&r.low),
                close: price_or_zero_exec(&r.close),
                volume: price_or_zero_exec(&r.volume),
                quote_volume: price_or_zero_exec(&r.quote_volume),
                trades: r.trades,
            },
        );
    }
    ks
}

/// The ticker a reply stands for, stamped now; a price that is not a number
/// reads as zero.
pub fn ticker_from_reply(reply: BinanceTicker) -> (t: Ticker)
    ensures
        t.symbol@ == reply.symbol@,
        t.price == price_or_zero(reply.last_price@),
        t.timestamp >= 0,
{
    let price = price_or_zero_exec(&reply.last_price);
    Ticker { symbol: reply.symbol, price, timestamp: crate::runtime::now_millis() }
}

/// The levels of one side of a book reply that stand for a `(price, quantity)`.
pub fn levels_from_reply(levels: &Vec<Vec<String>>) -> (r: Vec<(i64, i64)>)
    ensures
        r@ == levels_of(level_texts(levels@)),
{
    let ghost texts = level_texts(levels@);
    let mut out: Vec<(i64, i64)> = Vec::new();
    for i in 0..levels.len()
        invariant
            texts == level_texts(levels@),
            out@ == levels_of(texts.take(i as int)),
    {
        let l = level_exec(&levels[i]);
        proof {
            assert(texts.take(i + 1).drop_last() =~= texts.take(i as int));
            assert(texts.take(i + 1).last() =~= Seq::new(levels@[i as int]@.len(), |j: int| levels@[i as int]@[j]@));
        }
        if let Some(pq) = l {
            out.push(pq);
        }
    }
    proof {
        assert(texts.take(levels@.len() as int) =~= texts);
    }
    out
}

/// The order book of `symbol` (in upper case) a depth reply stands for, stamped now.
pub fn order_book_from_reply(symbol: &str, bids: &Vec<Vec<String>>, asks: &Vec<Vec<String>>) -> (b: OrderBook)
    ensures
        b.symbol@ == uppercase(symbol@),
        b.bids@ == levels_of(level_texts(bids@)),
        b.asks@ == levels_of(level_texts(asks@)),
        b.timestamp >= 0,
{
    OrderBook {
        symbol: to_uppercase(symbol),
        bids: levels_from_reply(bids),
        asks: levels_from_reply(asks),
        timestamp: crate::runtime::now_millis(),
    }
}

} // verus!
