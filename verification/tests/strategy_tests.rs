use crypto_quant::data::{Kline, OrderStatus, OrderType, Side};
use crypto_quant::fixed::SCALE;
use crypto_quant::strategy::{
    order_from_signal, DualMaStrategy, RsiStrategy, Signal, Strategy, StrategyContext,
};

fn kline(ts: i64, close: i64) -> Kline {
    Kline {
        timestamp: ts,
        open: close,
        high: close,
        low: close,
        close,
        volume: 0,
        quote_volume: 0,
        trades: 0,
    }
}

fn klines_from(closes: &[i64]) -> Vec<Kline> {
    closes.iter().enumerate().map(|(i, c)| kline(i as i64, c * SCALE)).collect()
}

#[test]
fn dual_ma_name_and_hold_on_short_history() {
    let mut s = DualMaStrategy::new(5, 20);
    assert_eq!(s.name(), "DualMA(5,20)");
    let ks = klines_from(&[1, 2, 3]);
    assert_eq!(s.on_data(&ks).unwrap(), Signal::Hold);
}

#[test]
fn dual_ma_buys_on_upward_cross() {
    let mut s = DualMaStrategy::new(1, 2);
    // fast = last close, slow = mean of last two closes
    // prev: fast 10, slow (10 + 10) / 2 = 10 -> fast <= slow; now: fast 12 > slow 11
    let ks = klines_from(&[10, 10, 12]);
    assert_eq!(s.on_data(&ks).unwrap(), Signal::Buy);
}

#[test]
fn dual_ma_sells_on_downward_cross() {
    let mut s = DualMaStrategy::new(1, 2);
    let ks = klines_from(&[10, 10, 8]);
    assert_eq!(s.on_data(&ks).unwrap(), Signal::Sell);
}

#[test]
fn dual_ma_holds_without_cross() {
    let mut s = DualMaStrategy::new(1, 2);
    let ks = klines_from(&[8, 10, 12]);
    assert_eq!(s.on_data(&ks).unwrap(), Signal::Hold);
}

#[test]
fn rsi_strategy_default_name() {
    let s = RsiStrategy::default();
    assert_eq!(s.name(), "RSI(14)");
    let s = RsiStrategy::new(7, 80 * SCALE, 20 * SCALE);
    assert_eq!(s.name(), "RSI(7)");
}

#[test]
fn rsi_strategy_buys_when_leaving_oversold() {
    // period 2: RSI at the second to last bar is 0 (only losses), then a
    // large gain lifts it above the oversold level.
    let mut s = RsiStrategy::new(2, 70 * SCALE, 30 * SCALE);
    let ks = klines_from(&[10, 9, 8, 20]);
    assert_eq!(s.on_data(&ks).unwrap(), Signal::Buy);
}

#[test]
fn rsi_strategy_sells_when_leaving_overbought() {
    let mut s = RsiStrategy::new(2, 70 * SCALE, 30 * SCALE);
    let ks = klines_from(&[8, 9, 10, 2]);
    assert_eq!(s.on_data(&ks).unwrap(), Signal::Sell);
}

#[test]
fn rsi_strategy_holds_on_short_history() {
    let mut s = RsiStrategy::default();
    let ks = klines_from(&[1, 2, 3]);
    assert_eq!(s.on_data(&ks).unwrap(), Signal::Hold);
}

fn context(position_size: i64) -> StrategyContext {
    StrategyContext {
        symbol: "BTCUSDT".to_string(),
        timestamp: 0,
        current_price: 50 * SCALE,
        position_size,
        unrealized_pnl: 0,
        balance: 10000 * SCALE,
    }
}

#[test]
fn default_position_size_is_two_percent_of_balance() {
    let s = DualMaStrategy::new(5, 20);
    // 2% of 10000 = 200, at a price of 50 that is 4 units
    assert_eq!(s.calculate_position_size(&context(0)), 4 * SCALE);
}

#[test]
fn generate_order_buys_without_position() {
    let s = DualMaStrategy::new(5, 20);
    let o = s.generate_order(Signal::Buy, &context(0)).unwrap();
    assert_eq!(o.side, Side::Buy);
    assert_eq!(o.quantity, 4 * SCALE);
    assert_eq!(o.symbol, "BTCUSDT");
    assert_eq!(o.id, "");
    assert_eq!(o.order_type, OrderType::Market);
    assert_eq!(o.status, OrderStatus::Pending);
    assert_eq!(o.filled_quantity, 0);
    assert!(o.timestamp > 0);
}

#[test]
fn generate_order_refuses_second_buy_and_sells_position() {
    let s = DualMaStrategy::new(5, 20);
    assert!(s.generate_order(Signal::Buy, &context(3 * SCALE)).is_none());
    let o = s.generate_order(Signal::Sell, &context(3 * SCALE)).unwrap();
    assert_eq!(o.side, Side::Sell);
    assert_eq!(o.quantity, 3 * SCALE);
    assert!(s.generate_order(Signal::Sell, &context(0)).is_none());
    assert!(s.generate_order(Signal::Hold, &context(3 * SCALE)).is_none());
}

#[test]
fn order_from_signal_uses_given_values() {
    let o = order_from_signal(Signal::Buy, &context(0), 7, 1234).unwrap();
    assert_eq!(o.quantity, 7);
    assert_eq!(o.timestamp, 1234);
}

#[test]
fn zero_periods_never_signal() {
    let ks = klines_from(&[10, 10, 12, 8, 15, 3]);
    let mut dual = DualMaStrategy::new(0, 2);
    assert_eq!(dual.name(), "DualMA(0,2)");
    assert_eq!(dual.on_data(&ks).unwrap(), Signal::Hold);
    let mut dual = DualMaStrategy::new(1, 0);
    assert_eq!(dual.on_data(&ks).unwrap(), Signal::Hold);
    let mut rsi = RsiStrategy::new(0, 70 * SCALE, 30 * SCALE);
    assert_eq!(rsi.name(), "RSI(0)");
    assert_eq!(rsi.on_data(&ks).unwrap(), Signal::Hold);
}

#[test]
fn dual_ma_reads_only_the_recent_closes() {
    let closes = [5, 9, 2, 10, 10, 12, 11, 13, 9, 14];
    let ks = klines_from(&closes);
    let mut s = DualMaStrategy::new(2, 3);
    let whole = s.on_data(&ks).unwrap();
    for w in 4..=ks.len() {
        assert_eq!(s.on_data(&ks[ks.len() - w..]).unwrap(), whole);
    }
}

#[test]
fn negative_price_sizes_a_negative_quantity() {
    let s = DualMaStrategy::new(5, 20);
    let mut ctx = context(0);
    ctx.current_price = -50 * SCALE;
    assert_eq!(s.calculate_position_size(&ctx), -4 * SCALE);
    ctx.current_price = -3 * SCALE;
    // 200 / -3 = -66.666..., rounded down
    assert_eq!(s.calculate_position_size(&ctx), -6_666_666_667);
    let o = s.generate_order(Signal::Buy, &ctx).unwrap();
    assert_eq!(o.quantity, -6_666_666_667);
    assert_eq!(o.side, Side::Buy);
}
