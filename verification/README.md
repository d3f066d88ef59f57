# crypto_quant

A backtesting library for crypto trading strategies, verified with Verus.

All prices, quantities, amounts and percentages are `i64` fixed-point values
with eight decimals (`fixed::SCALE` units per whole number); timestamps are
milliseconds since the Unix epoch. Divisions round down unless a contract says
otherwise, and every contract is stated over the exact integer arithmetic.

- `src/indicator`: SMA, EMA, RSI, MACD, Bollinger bands, ATR.
- `src/risk`: position size limit, stop loss and take profit.
- `src/strategy`: the `Strategy` trait, the dual moving average and RSI
  strategies. A verified strategy states through `Strategy::signal_for` what
  its `on_data` answers for a window of klines.
- `src/backtest`: the backtest engine, its account model and report metrics;
  `run_bars` states what a run does with any strategy.
- `src/data`: market data types, the simulated exchange and the request and
  reply logic of the Binance public API.
- `src/config`, `src/text`, `src/fixed`, `src/runtime`: settings, decimal
  text, fixed-point helpers, and the clock and random source.
- `app/`: the command-line program (settings file, HTTP, async exchange access).
