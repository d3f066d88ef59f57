use crypto_quant::backtest::{BacktestConfig, BacktestEngine};
use crypto_quant::data::Kline;
use crypto_quant::error::QuantError;
use crypto_quant::fixed::SCALE;
use crypto_quant::risk::RiskManager;
use crypto_quant::strategy::{sized_by_risk, DualMaStrategy, Signal, Strategy, StrategyContext};

fn kline(ts: i64, close: i64) -> Kline {
    Kline {
        timestamp: ts,
        open: close,
        high: close,
        low: close,
        close,
        volume: 0,
        quote_volume: 0,
        trades: 0,
    }
}

fn klines_from(closes: &[i64]) -> Vec<Kline> {
    closes.iter().enumerate().map(|(i, c)| kline(1000 + i as i64, c * SCALE)).collect()
}

fn config(window_size: usize, capital: i64) -> BacktestConfig {
    BacktestConfig {
        window_size,
        symbol: "BTCUSDT".to_string(),
        timeframe: "1h".to_string(),
        start_time: 0,
        end_time: 0,
        initial_capital: capital,
    }
}

fn risk() -> RiskManager {
    RiskManager::new(1_000_000 * SCALE, 2 * SCALE, 5 * SCALE)
}

#[test]
fn replay_round_trip_trade() {
    let mut engine = BacktestEngine::new(config(1, 10000 * SCALE), DualMaStrategy::new(1, 2), risk());
    let ks = klines_from(&[100, 100, 101, 103, 99, 104]);
    let signals = [Signal::Buy, Signal::Hold, Signal::Hold, Signal::Sell, Signal::Hold];
    let report = engine.replay(&ks, &signals, 0).unwrap();
    assert_eq!(report.initial_capital, 10000 * SCALE);
    assert_eq!(report.final_capital, 9900 * SCALE);
    assert_eq!(report.total_return_pct, Some(-SCALE));
    assert_eq!(report.total_trades, 1);
    assert_eq!(report.winning_trades, 0);
    assert_eq!(report.losing_trades, 1);
    assert_eq!(report.win_rate, 0);
    assert_eq!(report.max_drawdown_pct, Some(388_349_515));
    assert_eq!(report.sharpe_ratio, Some(-193_922_577));
    let t = report.trades[0];
    assert_eq!(t.entry_price, 100 * SCALE);
    assert_eq!(t.exit_price, 99 * SCALE);
    assert_eq!(t.quantity, 100 * SCALE);
    assert_eq!(t.pnl, -100 * SCALE);
    assert_eq!(t.pnl_pct, -SCALE);
    assert_eq!(t.entry_time, 1003);
    assert_eq!(t.exit_time, 1004);
}

#[test]
fn stop_loss_closes_position() {
    let mut engine = BacktestEngine::new(config(1, 10000 * SCALE), DualMaStrategy::new(1, 2), risk());
    let ks = klines_from(&[100, 100, 97]);
    let report = engine.replay(&ks, &[Signal::Buy, Signal::Hold], 0).unwrap();
    assert_eq!(report.total_trades, 1);
    assert_eq!(report.trades[0].pnl, -300 * SCALE);
    assert_eq!(report.final_capital, 9700 * SCALE);
}

#[test]
fn take_profit_closes_position() {
    let mut engine = BacktestEngine::new(config(1, 10000 * SCALE), DualMaStrategy::new(1, 2), risk());
    let ks = klines_from(&[100, 100, 106]);
    let report = engine.replay(&ks, &[Signal::Buy, Signal::Hold], 0).unwrap();
    assert_eq!(report.total_trades, 1);
    assert_eq!(report.winning_trades, 1);
    assert_eq!(report.win_rate, SCALE);
    assert_eq!(report.final_capital, 10600 * SCALE);
}

#[test]
fn position_limit_blocks_buy() {
    let small = RiskManager::new(1000 * SCALE, 2 * SCALE, 5 * SCALE);
    let mut engine = BacktestEngine::new(config(1, 10000 * SCALE), DualMaStrategy::new(1, 2), small);
    let ks = klines_from(&[100, 100, 101]);
    let report = engine.replay(&ks, &[Signal::Buy, Signal::Hold], 0).unwrap();
    assert_eq!(report.total_trades, 0);
    assert_eq!(report.final_capital, 10000 * SCALE);
}

#[test]
fn replay_overflow_is_reported() {
    let mut engine = BacktestEngine::new(config(1, 10000 * SCALE), DualMaStrategy::new(1, 2), risk());
    let ks = vec![kline(0, 1), kline(1, 1)];
    match engine.replay(&ks, &[Signal::Buy], 0) {
        Err(QuantError::Overflow) => {}
        other => panic!("unexpected result {:?}", other.map(|r| r.final_capital)),
    }
}

#[test]
fn run_with_dual_ma() {
    let mut engine = BacktestEngine::new(config(3, 10000 * SCALE), DualMaStrategy::new(1, 2), risk());
    // window [10,10,12] gives a buy at the close of 12; at the close of 11
    // the loss of 8.3% reaches the 2% stop loss.
    let ks = klines_from(&[10, 10, 12, 12, 11]);
    let report = engine.run(&ks).unwrap();
    assert_eq!(report.total_trades, 1);
    assert_eq!(report.trades[0].entry_price, 12 * SCALE);
    assert_eq!(report.trades[0].exit_price, 11 * SCALE);
}

struct Failing;

impl Strategy for Failing {
    fn name(&self) -> &str {
        "failing"
    }

    fn on_data(&mut self, _klines: &[Kline]) -> Result<Signal, QuantError> {
        Err(QuantError::Strategy("no data".to_string()))
    }

    fn calculate_position_size(&self, context: &StrategyContext) -> i64 {
        sized_by_risk(context)
    }
}

#[test]
fn strategy_error_stops_run() {
    let mut engine = BacktestEngine::new(config(1, 10000 * SCALE), Failing, risk());
    let ks = klines_from(&[10, 11]);
    match engine.run(&ks) {
        Err(QuantError::Strategy(m)) => assert_eq!(m, "no data"),
        _ => panic!("expected a strategy error"),
    }
}

#[test]
fn empty_run_reports_initial_capital() {
    let mut engine = BacktestEngine::new(config(5, 10000 * SCALE), DualMaStrategy::new(1, 2), risk());
    let report = engine.run(&klines_from(&[10, 11])).unwrap();
    assert_eq!(report.final_capital, 10000 * SCALE);
    assert_eq!(report.total_return_pct, Some(0));
    assert_eq!(report.sharpe_ratio, Some(0));
    assert_eq!(report.max_drawdown_pct, Some(0));
}

struct SecondWindowReporter {
    calls: usize,
}

impl Strategy for SecondWindowReporter {
    fn name(&self) -> &str {
        "second window"
    }

    fn on_data(&mut self, klines: &[Kline]) -> Result<Signal, QuantError> {
        self.calls += 1;
        if self.calls == 2 {
            let last = klines.last().map(|k| k.timestamp).unwrap_or(-1);
            return Err(QuantError::Strategy(format!("{} {}", klines.len(), last)));
        }
        Ok(Signal::Hold)
    }

    fn calculate_position_size(&self, context: &StrategyContext) -> i64 {
        sized_by_risk(context)
    }
}

#[test]
fn run_hands_the_strategy_the_klines_before_the_bar() {
    let mut engine =
        BacktestEngine::new(config(2, 10000 * SCALE), SecondWindowReporter { calls: 0 }, risk());
    let ks = klines_from(&[10, 11, 12, 13, 14, 15]);
    match engine.run(&ks) {
        Err(QuantError::Strategy(m)) => assert_eq!(m, "2 1002"),
        _ => panic!("expected the strategy's own error"),
    }
}

#[test]
fn zero_capital_has_no_return() {
    let mut engine = BacktestEngine::new(config(1, 0), DualMaStrategy::new(1, 2), risk());
    let report = engine.run(&klines_from(&[10, 11, 12])).unwrap();
    assert_eq!(report.final_capital, 0);
    assert_eq!(report.total_return_pct, None);
    assert_eq!(report.total_trades, 0);
}

#[test]
fn cash_that_buys_nothing_opens_no_position() {
    let mut engine = BacktestEngine::new(config(1, 1), DualMaStrategy::new(1, 2), risk());
    let ks = klines_from(&[2, 2, 2]);
    let report = engine.replay(&ks, &[Signal::Buy, Signal::Sell], 0).unwrap();
    assert_eq!(report.total_trades, 0);
    assert_eq!(report.final_capital, 1);
}

#[test]
fn all_in_buy_over_the_limit_is_refused() {
    let limit = RiskManager::new(1000 * SCALE, 2 * SCALE, 5 * SCALE);
    let mut engine = BacktestEngine::new(config(1, 1000 * SCALE + 1), DualMaStrategy::new(1, 2), limit);
    let ks = klines_from(&[3, 3, 3]);
    let report = engine.replay(&ks, &[Signal::Buy, Signal::Sell], 0).unwrap();
    assert_eq!(report.total_trades, 0);
    assert_eq!(report.final_capital, 1000 * SCALE + 1);
}

#[test]
fn smallest_fall_counts_as_drawdown() {
    let mut engine = BacktestEngine::new(config(1, 10000 * SCALE), DualMaStrategy::new(1, 2), risk());
    let ks = vec![kline(1000, 100 * SCALE), kline(1001, 100 * SCALE), kline(1002, 100 * SCALE - 1)];
    let report = engine.replay(&ks, &[Signal::Buy, Signal::Hold], 0).unwrap();
    assert_eq!(report.total_trades, 0);
    assert_eq!(report.max_drawdown_pct, Some(1));
}

#[test]
fn rising_curve_has_no_drawdown_and_a_positive_sharpe_ratio() {
    let mut engine = BacktestEngine::new(config(1, 10000 * SCALE), DualMaStrategy::new(1, 2), risk());
    let ks = vec![
        kline(1000, 100 * SCALE),
        kline(1001, 100 * SCALE),
        kline(1002, 100 * SCALE + 1),
        kline(1003, 100 * SCALE + 3),
    ];
    let report = engine.replay(&ks, &[Signal::Buy, Signal::Hold, Signal::Hold], 0).unwrap();
    assert_eq!(report.max_drawdown_pct, Some(0));
    assert!(report.sharpe_ratio.unwrap() > 0);
}

#[test]
fn run_is_a_replay_of_the_strategy_signals_within_limits() {
    let closes = [10, 10, 12, 12, 13, 11, 12, 14, 13, 15, 16, 15];
    let ks = klines_from(&closes);
    let window = 3;
    let limit = || RiskManager::new(20000 * SCALE, 2 * SCALE, 5 * SCALE);
    let mut probe = DualMaStrategy::new(1, 2);
    let signals: Vec<Signal> =
        (window..ks.len()).map(|i| probe.on_data(&ks[i - window..i]).unwrap()).collect();
    let mut run_engine = BacktestEngine::new(config(window, 10000 * SCALE), DualMaStrategy::new(1, 2), limit());
    let ran = run_engine.run(&ks).unwrap();
    let mut replay_engine =
        BacktestEngine::new(config(window, 10000 * SCALE), DualMaStrategy::new(1, 2), limit());
    let replayed = replay_engine.replay(&ks, &signals, 0).unwrap();
    assert_eq!(ran.final_capital, replayed.final_capital);
    assert_eq!(ran.total_trades, replayed.total_trades);
    assert_eq!(ran.max_drawdown_pct, replayed.max_drawdown_pct);
    assert_eq!(ran.sharpe_ratio, replayed.sharpe_ratio);
    assert!(ran.total_trades > 0);
    for t in &ran.trades {
        assert!(t.quantity as i128 * t.entry_price as i128 <= 20000 * SCALE as i128 * SCALE as i128);
        assert!(t.quantity > 0);
    }
}

#[test]
fn slowly_rising_curve_has_a_large_positive_sharpe_ratio() {
    let mut engine = BacktestEngine::new(config(1, 1_000_000_000_000), DualMaStrategy::new(1, 2), risk());
    let base = 1_000_000_000_000;
    let ks = vec![kline(1000, base), kline(1001, base), kline(1002, base + 1), kline(1003, base + 2)];
    let report = engine.replay(&ks, &[Signal::Buy, Signal::Hold, Signal::Hold], 0).unwrap();
    assert_eq!(report.max_drawdown_pct, Some(0));
    assert_eq!(report.sharpe_ratio, Some(38_208_035_866_490));
}

#[test]
fn final_capital_values_an_open_position_at_the_last_close() {
    let mut engine = BacktestEngine::new(config(1, 10000 * SCALE), DualMaStrategy::new(1, 2), risk());
    let ks = klines_from(&[100, 100, 101]);
    let report = engine.replay(&ks, &[Signal::Buy, Signal::Hold], 0).unwrap();
    assert_eq!(report.total_trades, 0);
    // 100 units bought at 100 and valued at 101
    assert_eq!(report.final_capital, 10100 * SCALE);
    assert_eq!(report.total_return_pct, Some(SCALE));
}

#[test]
fn negative_capital_runs_without_buying() {
    let mut engine = BacktestEngine::new(config(1, -500 * SCALE), DualMaStrategy::new(1, 2), risk());
    let ks = klines_from(&[10, 10, 12, 11]);
    let report = engine.replay(&ks, &[Signal::Buy, Signal::Buy, Signal::Sell], 0).unwrap();
    assert_eq!(report.total_trades, 0);
    assert_eq!(report.final_capital, -500 * SCALE);
    assert_eq!(report.total_return_pct, Some(0));
    assert_eq!(report.sharpe_ratio, Some(0));
}

#[test]
fn zero_close_skips_the_buy_and_still_triggers_the_stop_loss() {
    let mut engine = BacktestEngine::new(config(1, 10000 * SCALE), DualMaStrategy::new(1, 2), risk());
    let ks = klines_from(&[100, 0, 100, 0]);
    let report = engine.replay(&ks, &[Signal::Buy, Signal::Buy, Signal::Hold], 0).unwrap();
    assert_eq!(report.total_trades, 1);
    assert_eq!(report.trades[0].entry_price, 100 * SCALE);
    assert_eq!(report.trades[0].exit_price, 0);
    assert_eq!(report.final_capital, 0);
    assert_eq!(report.total_return_pct, Some(-100 * SCALE));
    assert_eq!(report.max_drawdown_pct, Some(0));
}

#[test]
fn run_accepts_negative_closes() {
    let mut engine = BacktestEngine::new(config(1, 10000 * SCALE), DualMaStrategy::new(1, 2), risk());
    let ks = klines_from(&[-5, -4, -6, -3]);
    let report = engine.run(&ks).unwrap();
    assert_eq!(report.total_trades, 0);
    assert_eq!(report.final_capital, 10000 * SCALE);
}
