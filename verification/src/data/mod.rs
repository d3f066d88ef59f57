//! Market data and trading records.
//!
//! Prices, quantities and amounts are fixed-point values (see `crate::fixed`);
//! timestamps are milliseconds since the Unix epoch.
use vstd::prelude::*;

pub mod binance;
pub mod mock;

verus! {

/// One candlestick of a price series.
#[derive(Debug, Clone, Copy)]
pub struct Kline {
    pub timestamp: i64,
    pub open: i64,
    pub high: i64,
    pub low: i64,
    pub close: i64,
    pub volume: i64,
    pub quote_volume: i64,
    pub trades: u64,
}

/// Last traded price of a symbol.
#[derive(Debug, Clone)]
pub struct Ticker {
    pub symbol: String,
    pub price: i64,
    pub timestamp: i64,
}

/// Bids and asks of a symbol as `(price, quantity)` levels.
#[derive(Debug, Clone)]
pub struct OrderBook {
    pub symbol: String,
    pub bids: Vec<(i64, i64)>,
    pub asks: Vec<(i64, i64)>,
    pub timestamp: i64,
}

/// An executed trade.
#[derive(Debug, Clone)]
pub struct Trade {
    pub id: String,
    pub symbol: String,
    pub side: Side,
    pub price: i64,
    pub quantity: i64,
    pub timestamp: i64,
}

/// Direction of an order or a position.
#[derive(Debug, Clone, Copy, PartialEq, Eq, Structural)]
pub enum Side {
    Buy,
    Sell,
}

/// How an order is to be executed; the limit and trigger prices are fixed point.
#[derive(Debug, Clone, Copy, PartialEq, Eq, Structural)]
pub enum OrderType {
    Market,
    Limit(i64),
    StopLoss(i64),
    TakeProfit(i64),
}

/// An order and its execution state.
#[derive(Debug, Clone)]
pub struct Order {
    pub id: String,
    pub symbol: String,
    pub side: Side,
    pub order_type: OrderType,
    pub quantity: i64,
    pub filled_quantity: i64,
    pub avg_price: i64,
    pub status: OrderStatus,
    pub timestamp: i64,
}

/// Life cycle state of an order.
#[derive(Debug, Clone, Copy, PartialEq, Eq, Structural)]
pub enum OrderStatus {
    Pending,
    PartiallyFilled,
    Filled,
    Cancelled,
    Rejected,
}

/// Holdings of one asset.
#[derive(Debug, Clone)]
pub struct Balance {
    pub asset: String,
    pub free: i64,
    pub locked: i64,
}

/// An open position.
#[derive(Debug, Clone)]
pub struct Position {
    pub symbol: String,
    pub side: Side,
    pub quantity: i64,
    pub entry_price: i64,
    pub unrealized_pnl: i64,
    pub realized_pnl: i64,
}

/// The closing prices of `k`, in order.
pub open spec fn closes(k: Seq<Kline>) -> Seq<i64> {
    Seq::new(k.len(), |i: int| k[i].close)
}

} // verus!

verus! {

/// The closing prices of `klines`, in order.
pub fn close_prices(klines: &[Kline]) -> (c: Vec<i64>)
    ensures
        c@ == closes(klines@),
{
    let mut c: Vec<i64> = Vec::with_capacity(klines.len());
    for i in 0..klines.len()
        invariant
            c@.len() == i,
            forall|k: int| 0 <= k < i ==> #[trigger] c@[k] == klines@[k].close,
    {
        c.push(klines[i].close);
    }
    proof {
        assert(c@ =~= closes(klines@));
    }
    c
}

} // verus!
