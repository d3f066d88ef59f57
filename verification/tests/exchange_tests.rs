use crypto_quant::data::binance::{
    klines_from_rows, levels_from_reply, order_book_from_reply, ticker_from_reply, BinanceExchange,
    BinanceKline, BinanceTicker,
};
use crypto_quant::data::mock::MockExchange;
use crypto_quant::data::{Order, OrderStatus, OrderType, Side};
use crypto_quant::fixed::SCALE;

#[test]
fn mock_exchange_starts_with_balances_and_hourly_history() {
    let ex = MockExchange::new();
    let balances = ex.get_balance();
    assert_eq!(balances.len(), 2);
    assert_eq!(balances[0].asset, "USDT");
    assert_eq!(balances[0].free, 10000 * SCALE);
    assert_eq!(balances[1].asset, "BTC");
    assert_eq!(balances[1].free, 0);
    let ks = ex.get_klines("BTCUSDT", "1h", None, None, None);
    assert_eq!(ks.len(), 1000);
    for w in ks.windows(2) {
        assert_eq!(w[1].timestamp - w[0].timestamp, 3_600_000);
    }
    for k in &ks {
        assert!(0 <= k.low && k.low <= k.open && k.open <= k.high);
        assert!(k.low <= k.close && k.close <= k.high);
        assert!(100 * SCALE <= k.volume && k.volume < 1000 * SCALE);
    }
    assert!(ex.get_positions().is_empty());
}

#[test]
fn mock_klines_filter_and_limit() {
    let ex = MockExchange::new();
    let all = ex.get_klines("BTCUSDT", "1h", None, None, None);
    let start = all[100].timestamp;
    let end = all[199].timestamp;
    let ranged = ex.get_klines("BTCUSDT", "1h", Some(start), Some(end), None);
    assert_eq!(ranged.len(), 100);
    assert_eq!(ranged[0].timestamp, start);
    let limited = ex.get_klines("BTCUSDT", "1h", Some(start), Some(end), Some(10));
    assert_eq!(limited.len(), 10);
    assert_eq!(limited[9].timestamp, end);
    assert_eq!(limited[0].timestamp, all[190].timestamp);
    let big = ex.get_klines("BTCUSDT", "1h", Some(start), Some(end), Some(5000));
    assert_eq!(big.len(), 100);
}

#[test]
fn mock_orders_fill_at_current_price() {
    let mut ex = MockExchange::new();
    ex.set_price(123 * SCALE);
    let order = Order {
        id: String::new(),
        symbol: "BTCUSDT".to_string(),
        side: Side::Buy,
        order_type: OrderType::Market,
        quantity: 2 * SCALE,
        filled_quantity: 0,
        avg_price: 0,
        status: OrderStatus::Pending,
        timestamp: 5,
    };
    let filled = ex.place_order(order);
    assert_eq!(filled.id.chars().count(), 36);
    assert_eq!(filled.status, OrderStatus::Filled);
    assert_eq!(filled.filled_quantity, 2 * SCALE);
    assert_eq!(filled.avg_price, 123 * SCALE);
    assert!(ex.cancel_order("BTCUSDT", &filled.id));
    assert!(ex.get_order("BTCUSDT", &filled.id).is_none());
    let t = ex.get_ticker("BTCUSDT");
    assert_eq!(t.symbol, "BTCUSDT");
    assert_eq!(t.price, 123 * SCALE);
}

#[test]
fn mock_order_book_levels() {
    let mut ex = MockExchange::new();
    ex.set_price(1000 * SCALE);
    let book = ex.get_order_book("BTCUSDT", Some(3));
    assert_eq!(book.bids.len(), 3);
    assert_eq!(book.bids[0].0, 999 * SCALE);
    assert_eq!(book.asks[0].0, 1001 * SCALE);
    assert_eq!(book.bids[2].0, 997 * SCALE);
    assert_eq!(book.asks[2].0, 1003 * SCALE);
    for i in 0..3 {
        assert_eq!(book.bids[i].1, book.asks[i].1);
        assert!(SCALE <= book.bids[i].1 && book.bids[i].1 < 11 * SCALE);
    }
    assert_eq!(ex.get_order_book("BTCUSDT", None).asks.len(), 10);
}

#[test]
fn mock_order_book_spread_at_smallest_price() {
    let mut ex = MockExchange::new();
    ex.set_price(1);
    let book = ex.get_order_book("BTCUSDT", Some(2));
    assert_eq!(book.bids[0].0, 0);
    assert_eq!(book.asks[0].0, 2);
    assert_eq!(book.asks[1].0, 2);
    for i in 0..2 {
        assert!(book.bids[i].0 < 1 && 1 < book.asks[i].0);
    }
}

#[test]
fn binance_urls() {
    let api = BinanceExchange::new();
    assert_eq!(
        api.klines_url("btcusdt", "4h", Some(1000), Some(-2), Some(5000)),
        "https://api.binance.com/api/v3/klines?symbol=BTCUSDT&interval=4h&startTime=1000&endTime=-2&limit=1000"
    );
    assert_eq!(
        api.klines_url("ethusdt", "2h", None, None, Some(7)),
        "https://api.binance.com/api/v3/klines?symbol=ETHUSDT&interval=1h&limit=7"
    );
    assert_eq!(api.ticker_url("btcusdt"), "https://api.binance.com/api/v3/ticker/24hr?symbol=BTCUSDT");
    assert_eq!(api.depth_url("btcusdt", None), "https://api.binance.com/api/v3/depth?symbol=BTCUSDT&limit=100");
    assert_eq!(api.depth_url("btcusdt", Some(20000)), "https://api.binance.com/api/v3/depth?symbol=BTCUSDT&limit=1000");
    let api = api.with_credentials("key".to_string(), "secret".to_string());
    assert_eq!(api.timeframe_to_interval("15m"), "15m");
    assert_eq!(api.timeframe_to_interval("1w"), "1w");
    assert_eq!(api.timeframe_to_interval("3d"), "1h");
}

#[test]
fn binance_replies() {
    let row = BinanceKline {
        open_time: 1_700_000_000_000,
        open: "50000.12".to_string(),
        high: "50100.5".to_string(),
        low: "49900".to_string(),
        close: "50050.123456789".to_string(),
        volume: "12.5".to_string(),
        close_time: 1_700_003_599_999,
        quote_volume: "not a number".to_string(),
        trades: 42,
    };
    let mut exp_row = row.clone();
    exp_row.volume = "1e5".to_string();
    let ks = klines_from_rows(&[row]);
    assert_eq!(klines_from_rows(&[exp_row])[0].volume, 100_000 * SCALE);
    assert_eq!(ks[0].timestamp, 1_700_000_000_000);
    assert_eq!(ks[0].open, 5_000_012_000_000);
    assert_eq!(ks[0].high, 5_010_050_000_000);
    assert_eq!(ks[0].low, 4_990_000_000_000);
    assert_eq!(ks[0].close, 5_005_012_345_678);
    assert_eq!(ks[0].volume, 1_250_000_000);
    assert_eq!(ks[0].quote_volume, 0);
    assert_eq!(ks[0].trades, 42);

    let t = ticker_from_reply(BinanceTicker { symbol: "BTCUSDT".to_string(), last_price: "1.5".to_string() });
    assert_eq!(t.price, 150_000_000);
    let t = ticker_from_reply(BinanceTicker { symbol: "BTCUSDT".to_string(), last_price: "x".to_string() });
    assert_eq!(t.price, 0);
    let t = ticker_from_reply(BinanceTicker { symbol: "BTCUSDT".to_string(), last_price: "1.5e4".to_string() });
    assert_eq!(t.price, 15_000 * SCALE);

    let levels = vec![
        vec!["100.5".to_string(), "2".to_string()],
        vec!["100.4".to_string()],
        vec!["bad".to_string(), "1".to_string()],
        vec!["100.3".to_string(), "3".to_string(), "extra".to_string()],
    ];
    let parsed = levels_from_reply(&levels);
    assert_eq!(parsed, vec![(10_050_000_000, 2 * SCALE), (10_030_000_000, 3 * SCALE)]);
    let exp_levels = vec![vec!["1e5".to_string(), "2E-1".to_string()]];
    assert_eq!(levels_from_reply(&exp_levels), vec![(100_000 * SCALE, 20_000_000)]);
    let book = order_book_from_reply("btcusdt", &levels, &vec![]);
    assert_eq!(book.symbol, "BTCUSDT");
    assert_eq!(book.bids.len(), 2);
    assert!(book.asks.is_empty());
}

#[test]
fn supported_intervals_map_to_themselves() {
    let api = BinanceExchange::new();
    for tf in ["1m", "5m", "15m", "30m", "1h", "4h", "1d", "1w"] {
        assert_eq!(api.timeframe_to_interval(tf), tf);
        let again = api.timeframe_to_interval(api.timeframe_to_interval(tf));
        assert_eq!(again, tf);
    }
    assert_eq!(api.timeframe_to_interval(""), "1h");
}
