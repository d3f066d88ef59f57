use crypto_quant::data::Side;
use crypto_quant::fixed::SCALE;
use crypto_quant::risk::RiskManager;

fn fx(x: f64) -> i64 {
    (x * SCALE as f64).round() as i64
}

fn fl(x: i64) -> f64 {
    x as f64 / SCALE as f64
}

#[test]
fn test_stop_loss() {
    let risk_manager = RiskManager::new(fx(1000.0), fx(2.0), fx(5.0));

    let stop_loss = fl(risk_manager.calculate_stop_loss(fx(100.0), Side::Buy));
    assert!((stop_loss - 98.0).abs() < 0.01);
}

#[test]
fn test_take_profit() {
    let risk_manager = RiskManager::new(fx(1000.0), fx(2.0), fx(5.0));

    let take_profit = fl(risk_manager.calculate_take_profit(fx(100.0), Side::Buy));
    assert!((take_profit - 105.0).abs() < 0.01);
}

#[test]
fn position_size_check_is_exact() {
    let rm = RiskManager::new(fx(1000.0), fx(2.0), fx(5.0));
    assert!(rm.check_position_size(fx(10.0), fx(100.0)));
    assert!(!rm.check_position_size(fx(10.0) + 1, fx(100.0)));
}

#[test]
fn stop_loss_and_take_profit_checks() {
    let rm = RiskManager::new(fx(1000.0), fx(2.0), fx(5.0));
    assert!(rm.check_stop_loss(fx(100.0), fx(98.0), Side::Buy));
    assert!(!rm.check_stop_loss(fx(100.0), fx(98.5), Side::Buy));
    assert!(rm.check_stop_loss(fx(100.0), fx(102.0), Side::Sell));
    assert!(!rm.check_stop_loss(fx(100.0), fx(101.0), Side::Sell));
    assert!(rm.check_take_profit(fx(100.0), fx(105.0), Side::Buy));
    assert!(!rm.check_take_profit(fx(100.0), fx(104.0), Side::Buy));
    assert!(rm.check_take_profit(fx(100.0), fx(95.0), Side::Sell));
    // A zero entry price: a positive move is an infinite percentage.
    assert!(rm.check_stop_loss(0, -1, Side::Buy));
    assert!(!rm.check_stop_loss(0, 0, Side::Buy));
}

#[test]
fn stop_and_take_prices_for_short_positions() {
    let rm = RiskManager::new(fx(1000.0), fx(2.0), fx(5.0));
    assert_eq!(rm.calculate_stop_loss(fx(100.0), Side::Sell), fx(102.0));
    assert_eq!(rm.calculate_take_profit(fx(100.0), Side::Sell), fx(95.0));
    // the distance to the entry is rounded up: 2% of 0.00000001 is one unit
    assert_eq!(rm.calculate_stop_loss(1, Side::Buy), 0);
}

#[test]
fn computed_levels_trigger_the_checks() {
    let rm = RiskManager::new(fx(1000.0), fx(2.5), fx(7.3));
    for entry in [1i64, 7, 333_333_333, fx(12345.678)] {
        for side in [Side::Buy, Side::Sell] {
            let sl = rm.calculate_stop_loss(entry, side);
            assert!(rm.check_stop_loss(entry, sl, side));
            let tp = rm.calculate_take_profit(entry, side);
            assert!(rm.check_take_profit(entry, tp, side));
            assert!(!(rm.check_stop_loss(entry, tp, side) && rm.check_take_profit(entry, tp, side)));
        }
    }
}

#[test]
fn position_size_from_risk() {
    let rm = RiskManager::new(fx(1000.0), fx(2.0), fx(5.0));
    // 2% of 10000 risked on a move of 2 buys 100
    assert_eq!(rm.calculate_position_size(fx(10000.0), fx(0.02), fx(100.0), fx(98.0)), Some(fx(100.0)));
    assert_eq!(rm.calculate_position_size(fx(10000.0), fx(0.02), fx(98.0), fx(100.0)), Some(fx(100.0)));
    assert_eq!(rm.calculate_position_size(fx(10000.0), fx(0.02), fx(100.0), fx(100.0)), None);
    assert_eq!(rm.calculate_position_size(i64::MAX, i64::MAX, 1, 0), None);
}
