//! Application settings.
use vstd::prelude::*;

verus! {

/// Settings of a backtest session. Amounts, prices and percentages are fixed
/// point; times are milliseconds since the Unix epoch.
#[derive(Debug, Clone)]
pub struct AppConfig {
    pub symbol: String,
    pub timeframe: String,
    pub start_time: i64,
    pub end_time: i64,
    pub initial_capital: i64,
    pub max_position_size: i64,
    pub stop_loss_pct: i64,
    pub take_profit_pct: i64,
    pub strategy: StrategyConfig,
}

/// Which strategy to run and its parameters.
#[derive(Debug, Clone)]
pub struct StrategyConfig {
    pub name: String,
    pub fast_period: Option<usize>,
    pub slow_period: Option<usize>,
    pub rsi_period: Option<usize>,
    pub overbought: Option<i64>,
    pub oversold: Option<i64>,
}

/// 2024-01-01T00:00:00Z, the first instant of the default range, in milliseconds.
pub const DEFAULT_START_MS: i64 = 1_704_067_200_000;

/// 2024-12-31T23:59:59Z, the last instant of the default range, in milliseconds.
pub const DEFAULT_END_MS: i64 = 1_735_689_599_000;

impl Default for AppConfig {
    /// BTCUSDT on hourly klines over the year 2024, 10000 of capital,
    /// positions of at most 1000, a 2% stop loss, a 5% take profit and the
    /// dual moving average strategy over 5 and 20 klines.
    fn default() -> (c: Self)
        ensures
            c.symbol@ == seq!['B', 'T', 'C', 'U', 'S', 'D', 'T'],
            c.timeframe@ == seq!['1', 'h'],
            c.start_time == DEFAULT_START_MS,
            c.end_time == DEFAULT_END_MS,
            c.initial_capital == 1_000_000_000_000,
            c.max_position_size == 100_000_000_000,
            c.stop_loss_pct == 200_000_000,
            c.take_profit_pct == 500_000_000,
            c.strategy.name@ == seq!['d', 'u', 'a', 'l', '_', 'm', 'a'],
            c.strategy.fast_period == Some(5usize),
            c.strategy.slow_period == Some(20usize),
            c.strategy.rsi_period is None,
            c.strategy.overbought is None,
            c.strategy.oversold is None,
    {
        let symbol = String::from_str("BTCUSDT");
        let timeframe = String::from_str("1h");
        let name = String::from_str("dual_ma");
        proof {
            reveal_strlit("BTCUSDT");
            reveal_strlit("1h");
            reveal_strlit("dual_ma");
        }
        AppConfig {
            symbol,
            timeframe,
            start_time: DEFAULT_START_MS,
            end_time: DEFAULT_END_MS,
            initial_capital: 1_000_000_000_000,
            max_position_size: 100_000_000_000,
            stop_loss_pct: 200_000_000,
            take_profit_pct: 500_000_000,
            strategy: StrategyConfig {
                name,
                fast_period: Some(5),
                slow_period: Some(20),
                rsi_period: None,
                overbought: None,
                oversold: None,
            },
        }
    }
}

} // verus!
