//! Backtesting of a strategy over a kline series.
use vstd::prelude::*;

use crate::data::{Kline, Side};
use crate::error::QuantError;
use crate::fixed::{fits_i64, floor_div, HUNDRED, SCALE};
use crate::risk::{loss_reaches, position_size_ok, profit_reaches, RiskManager};
use crate::strategy::{Signal, Strategy};

verus! {

/// Settings of a backtest run.
#[derive(Debug, Clone)]
pub struct BacktestConfig {
    /// Number of klines before the current one that the strategy sees.
    pub window_size: usize,
    pub symbol: String,
    pub timeframe: String,
    pub start_time: i64,
    pub end_time: i64,
    pub initial_capital: i64,
}

/// A closed trade.
#[derive(Debug, Clone, Copy)]
pub struct TradeRecord {
    pub entry_time: i64,
    pub exit_time: i64,
    pub entry_price: i64,
    pub exit_price: i64,
    pub quantity: i64,
    pub pnl: i64,
    pub pnl_pct: i64,
}

/// Summary of a backtest run.
#[derive(Debug)]
pub struct BacktestReport {
    pub initial_capital: i64,
    /// Cash plus the open position, if any, valued at the last close.
    pub final_capital: i64,
    /// Return in percent of the initial capital; `None` when it does not fit an `i64`.
    pub total_return_pct: Option<i64>,
    pub total_trades: usize,
    pub winning_trades: usize,
    pub losing_trades: usize,
    /// Share of winning trades, a fixed-point fraction.
    pub win_rate: i64,
    /// Largest drawdown in percent; `None` when it does not fit an `i64`
    /// (a fall below zero from a small peak).
    pub max_drawdown_pct: Option<i64>,
    /// Annualised Sharpe ratio; `None` when it is undefined or does not fit an `i64`.
    pub sharpe_ratio: Option<i64>,
    pub trades: Vec<TradeRecord>,
}

/// The account of a backtest: cash, the open position if any, the closed
/// trades and the equity recorded after each bar.
pub struct SimState {
    pub balance: i64,
    pub position_size: i64,
    pub entry_price: i64,
    pub position_side: Option<Side>,
    pub trades: Seq<TradeRecord>,
    pub equity_curve: Seq<i64>,
}

/// The invariant of the account: no negative position, and a positive entry
/// price while a position is open.
pub open spec fn state_ok(st: SimState) -> bool {
    &&& st.position_size >= 0
    &&& st.position_side is Some ==> st.entry_price > 0
}

/// No negative cash and no negative recorded equity.
pub open spec fn account_nonneg(st: SimState) -> bool {
    &&& st.balance >= 0
    &&& forall|j: int| 0 <= j < st.equity_curve.len() ==> #[trigger] st.equity_curve[j] >= 0
}

/// The capital of an account at the end of a run: its cash, plus the open
/// position valued at the last close, which is the last equity the run
/// recorded.
pub open spec fn final_capital_of(st: SimState) -> int {
    if st.position_side is Some && st.equity_curve.len() > 0 {
        st.equity_curve.last() as int
    } else {
        st.balance as int
    }
}

/// `x` as an `i64`, when it fits one.
pub open spec fn fit_opt(x: int) -> Option<int> {
    if fits_i64(x) {
        Some(x)
    } else {
        None
    }
}

/// Closing the open position at `exit_price`: the trade is recorded with its
/// profit `(exit - entry) * quantity` and its profit in percent of the entry,
/// the proceeds `quantity * exit` return to the cash and the position is
/// reset. `None` when a value leaves the range of `i64`.
pub open spec fn close_position(st: SimState, exit_price: int, exit_time: int, entry_time: int) -> Option<SimState> {
    let pnl = ((exit_price - st.entry_price) * st.position_size) / (SCALE as int);
    let pnl_pct = ((exit_price - st.entry_price) * HUNDRED) / (st.entry_price as int);
    let proceeds = (st.position_size * exit_price) / (SCALE as int);
    let balance = st.balance + proceeds;
    if fits_i64(pnl) && fits_i64(pnl_pct) && fits_i64(balance) {
        Some(
            SimState {
                balance: balance as i64,
                position_size: 0,
                entry_price: 0,
                position_side: None,
                trades: st.trades.push(
                    TradeRecord {
                        entry_time: entry_time as i64,
                        exit_time: exit_time as i64,
                        entry_price: st.entry_price,
                        exit_price: exit_price as i64,
                        quantity: st.position_size,
                        pnl: pnl as i64,
                        pnl_pct: pnl_pct as i64,
                    },
                ),
                equity_curve: st.equity_curve,
            },
        )
    } else {
        None
    }
}

/// Acting on the strategy's signal at the close of kline `k`: a buy of the
/// whole cash when no position is open, the close is positive, the risk
/// manager allows a position worth that cash, and the cash buys a positive
/// quantity; a sale of the open position; or nothing.
pub open spec fn apply_signal(
    st: SimState,
    risk: RiskManager,
    k: Kline,
    signal: Signal,
    entry_time: int,
) -> Option<SimState> {
    let c = k.close as int;
    if signal == Signal::Buy && st.position_side is None {
        let quantity = (st.balance * SCALE) / c;
        if c <= 0 || !position_size_ok(risk.max_position_size_spec(), st.balance as int, SCALE as int)
            || quantity <= 0 {
            Some(st)
        } else if !fits_i64(quantity) {
            None
        } else {
            Some(
                SimState {
                    balance: (st.balance - (quantity * c) / (SCALE as int)) as i64,
                    position_size: quantity as i64,
                    entry_price: k.close,
                    position_side: Some(Side::Buy),
                    trades: st.trades,
                    equity_curve: st.equity_curve,
                },
            )
        }
    } else if signal == Signal::Sell && st.position_side is Some {
        close_position(st, c, k.timestamp as int, entry_time)
    } else {
        Some(st)
    }
}

/// After the signal: an open position is closed when its loss reaches the
/// stop loss or its profit the take profit; otherwise the equity (cash plus
/// position value at the close) is recorded.
pub open spec fn apply_risk(st: SimState, risk: RiskManager, k: Kline, entry_time: int) -> Option<SimState> {
    let c = k.close as int;
    if st.position_side is Some {
        if loss_reaches(st.entry_price as int, c, Side::Buy, risk.stop_loss_pct_spec()) || profit_reaches(
            st.entry_price as int,
            c,
            Side::Buy,
            risk.take_profit_pct_spec(),
        ) {
            close_position(st, c, k.timestamp as int, entry_time)
        } else {
            let equity = st.balance + (st.position_size * c) / (SCALE as int);
            if fits_i64(equity) {
                Some(SimState { equity_curve: st.equity_curve.push(equity as i64), ..st })
            } else {
                None
            }
        }
    } else {
        Some(SimState { equity_curve: st.equity_curve.push(st.balance), ..st })
    }
}

/// One bar of the backtest. A closed trade is stamped as entered at
/// `entry_time`: the timestamp of the last kline of the strategy's window, or
/// the current time when the window is empty.
pub open spec fn step(
    st: SimState,
    risk: RiskManager,
    k: Kline,
    signal: Signal,
    entry_time: int,
) -> Option<SimState> {
    match apply_signal(st, risk, k, signal, entry_time) {
        Some(s1) => apply_risk(s1, risk, k, entry_time),
        None => None,
    }
}

/// Number of trades with a positive profit.
pub open spec fn count_winning(t: Seq<TradeRecord>) -> nat
    decreases t.len(),
{
    if t.len() == 0 {
        0
    } else {
        count_winning(t.drop_last()) + if t.last().pnl > 0 {
            1nat
        } else {
            0nat
        }
    }
}

/// Number of trades without a positive profit.
pub open spec fn count_losing(t: Seq<TradeRecord>) -> nat
    decreases t.len(),
{
    if t.len() == 0 {
        0
    } else {
        count_losing(t.drop_last()) + if t.last().pnl <= 0 {
            1nat
        } else {
            0nat
        }
    }
}

/// Share of winning trades as a fixed-point fraction, rounded down; zero
/// without trades.
pub open spec fn win_rate_of(t: Seq<TradeRecord>) -> int {
    if t.len() > 0 {
        (count_winning(t) * SCALE) / (t.len() as int)
    } else {
        0
    }
}

/// Return of `final_capital` on `initial_capital` in percent, rounded down;
/// `None` without initial capital (no return is defined) or when it does not
/// fit an `i64`.
pub open spec fn total_return_of(initial_capital: int, final_capital: int) -> Option<int> {
    let gain = (final_capital - initial_capital) * HUNDRED;
    let r = if initial_capital > 0 {
        gain / initial_capital
    } else {
        (-gain) / (-initial_capital)
    };
    if initial_capital != 0 && fits_i64(r) {
        Some(r)
    } else {
        None
    }
}

/// Running peak and largest drawdown (in percent of the peak, rounded up, so
/// that any fall counts) over the first `n` equity values. A drawdown is
/// measured only under a positive peak.
pub open spec fn drawdown_scan(e: Seq<i64>, n: int) -> (int, int)
    decreases n,
{
    if n <= 0 {
        (e[0] as int, 0)
    } else {
        let prev = drawdown_scan(e, n - 1);
        let x = e[n - 1] as int;
        let peak = if x > prev.0 {
            x
        } else {
            prev.0
        };
        let dd = if peak > 0 {
            ((peak - x) * HUNDRED + peak - 1) / peak
        } else {
            0
        };
        (
            peak,
            if peak > 0 && dd > prev.1 {
                dd
            } else {
                prev.1
            },
        )
    }
}

/// Largest drawdown of an equity curve in percent, fixed point.
pub open spec fn max_drawdown_of(e: Seq<i64>) -> int {
    if e.len() == 0 {
        0
    } else {
        drawdown_scan(e, e.len() as int).1
    }
}

/// `floor(sqrt(365) * SCALE)`, the annualisation factor of the volatility.
pub const SQRT_365: i64 = 1_910_497_317;

/// One in the units of a per-bar return: returns are kept to sixteen
/// decimal places, so that the smallest move of a large account still counts.
pub const RETURN_SCALE: i64 = 10_000_000_000_000_000;

/// Largest magnitude of a per-bar return the Sharpe ratio is computed for, in
/// units of `RETURN_SCALE` (a bar that multiplies the equity by about 460).
pub const RETURN_LIMIT: i64 = 4_611_686_018_427_387_904;

/// Return from equity value `j` to `j + 1`, in units of `RETURN_SCALE`,
/// rounded down.
pub open spec fn bar_return(e: Seq<i64>, j: int) -> int {
    let change = (e[j + 1] - e[j]) * RETURN_SCALE;
    if e[j] > 0 {
        change / (e[j] as int)
    } else {
        (-change) / (-e[j] as int)
    }
}

/// Every per-bar return is defined (no zero equity before the last value)
/// and within `RETURN_LIMIT`.
pub open spec fn returns_defined(e: Seq<i64>) -> bool {
    forall|j: int|
        0 <= j < e.len() - 1 ==> #[trigger] e[j] != 0 && -RETURN_LIMIT <= bar_return(e, j) <= RETURN_LIMIT
}

/// The per-bar returns of an equity curve.
pub open spec fn returns_of(e: Seq<i64>) -> Seq<i64> {
    Seq::new((e.len() - 1) as nat, |j: int| bar_return(e, j) as i64)
}

/// `n` times the sum of the squared returns minus the square of their sum,
/// for `n` returns: `n^2` times their variance, exactly.
pub open spec fn returns_spread(r: Seq<i64>) -> int {
    let n = r.len() as int;
    n * crate::indicator::sq_dev_sum(r, 0, n, 0) - crate::fixed::sum_range(r, 0, n)
        * crate::fixed::sum_range(r, 0, n)
}

/// `2^27`: the factor by which the Sharpe ratio refines the mean return and
/// the standard deviation when the variance is small.
pub const FINE_FACTOR: i64 = 134_217_728;

/// Annualised Sharpe ratio of an equity curve (365 bars a year, no risk-free
/// rate): mean return over standard deviation; zero with fewer than two values
/// or without volatility; `None` when a return is undefined or out of range, or
/// the ratio does not fit an `i64`. While the variance stays under `2^64`
/// units (and there are fewer than `2^32` returns) the mean and the deviation
/// are both taken `FINE_FACTOR` times finer, from the exact variance;
/// otherwise the mean and the variance are each rounded down to whole units.
pub open spec fn sharpe_of(e: Seq<i64>) -> Option<int> {
    if e.len() < 2 {
        Some(0)
    } else if !returns_defined(e) {
        None
    } else {
        sharpe_of_returns(returns_of(e))
    }
}

/// The Sharpe ratio of at least one per-bar return, as `sharpe_of` states.
pub open spec fn sharpe_of_returns(r: Seq<i64>) -> Option<int> {
    {
        let n = r.len() as int;
        let total = crate::fixed::sum_range(r, 0, n);
        let mean = total / n;
        let q = crate::indicator::sq_dev_sum(r, 0, n, mean) / n;
        let fine = q < 0x1_0000_0000_0000_0000int && n < 0x1_0000_0000int;
        let m = if fine {
            (total * FINE_FACTOR) / n
        } else {
            mean
        };
        let sd = if fine {
            crate::fixed::isqrt_spec((returns_spread(r) * FINE_FACTOR * FINE_FACTOR) / (n * n))
        } else {
            crate::fixed::isqrt_spec(q)
        };
        if sd == 0 {
            Some(0)
        } else {
            let annual_std = (sd * SQRT_365) / (SCALE as int);
            let s = (m * 365 * SCALE) / annual_std;
            if fits_i64(s) {
                Some(s)
            } else {
                None
            }
        }
    }
}

/// Squared deviations from `m` expand into squares, sum and count.
proof fn lemma_sq_dev_sum_shift(s: Seq<i64>, lo: int, hi: int, m: int)
    requires
        0 <= lo <= hi <= s.len(),
    ensures
        crate::indicator::sq_dev_sum(s, lo, hi, m) == crate::indicator::sq_dev_sum(s, lo, hi, 0) - 2 * m
            * crate::fixed::sum_range(s, lo, hi) + (hi - lo) * m * m,
    decreases hi - lo,
{
    if hi > lo {
        lemma_sq_dev_sum_shift(s, lo, hi - 1, m);
        let x = s[hi - 1] as int;
        let a = crate::indicator::sq_dev_sum(s, lo, hi - 1, 0);
        let b = crate::fixed::sum_range(s, lo, hi - 1);
        let c = crate::indicator::sq_dev_sum(s, lo, hi - 1, m);
        assert(crate::indicator::sq_dev_sum(s, lo, hi, m) == c + (x - m) * (x - m));
        assert(crate::indicator::sq_dev_sum(s, lo, hi, 0) == a + (x - 0) * (x - 0));
        assert(crate::fixed::sum_range(s, lo, hi) == b + x);
        assert(c + (x - m) * (x - m) == (a + (x - 0) * (x - 0)) - 2 * m * (b + x) + (hi - lo) * m * m)
            by (nonlinear_arith)
            requires
                c == a - 2 * m * b + (hi - 1 - lo) * m * m,
        ;
    } else {
        assert((hi - lo) * m * m == 0) by (nonlinear_arith)
            requires
                hi == lo,
        ;
    }
}

/// The sum of `k` squared deviations from `m`, times `k`, is at least the
/// square of their sum.
proof fn lemma_spread_nonneg(s: Seq<i64>, k: int, m: int)
    requires
        0 <= k <= s.len(),
    ensures
        k * crate::indicator::sq_dev_sum(s, 0, k, m) >= (crate::fixed::sum_range(s, 0, k) - k * m) * (
        crate::fixed::sum_range(s, 0, k) - k * m),
    decreases k,
{
    if k > 0 {
        lemma_spread_nonneg(s, k - 1, m);
        let a = crate::fixed::sum_range(s, 0, k - 1) - (k - 1) * m;
        let b = crate::indicator::sq_dev_sum(s, 0, k - 1, m);
        let x = s[k - 1] - m;
        let j = k - 1;
        assert(crate::indicator::sq_dev_sum(s, 0, k, m) == b + x * x);
        assert(crate::fixed::sum_range(s, 0, k) == crate::fixed::sum_range(s, 0, k - 1) + s[k - 1]);
        assert(k * m == (k - 1) * m + m) by (nonlinear_arith);
        assert(crate::fixed::sum_range(s, 0, k) - k * m == a + x);
        crate::indicator::lemma_sq_dev_sum_nonneg(s, 0, k - 1, m);
        assert(k * (b + x * x) >= (a + x) * (a + x)) by (nonlinear_arith)
            requires
                j >= 0,
                k == j + 1,
                j * b >= a * a,
                b >= 0,
        {
            assert(j * (b + j * x * x - 2 * a * x) >= (a - j * x) * (a - j * x)) by (nonlinear_arith)
                requires
                    j * b >= a * a,
            ;
            assert((a - j * x) * (a - j * x) >= 0) by (nonlinear_arith);
            if j > 0 {
                assert(b + j * x * x - 2 * a * x >= 0) by (nonlinear_arith)
                    requires
                        j > 0,
                        j * (b + j * x * x - 2 * a * x) >= 0,
                ;
            } else {
                assert(a * a <= 0) by (nonlinear_arith)
                    requires
                        j * b >= a * a,
                        j == 0,
                ;
            }
        }
    } else {
        assert(k * crate::indicator::sq_dev_sum(s, 0, k, m) == 0 && k * m == 0) by (nonlinear_arith)
            requires
                k == 0,
        ;
    }
}

/// The entry time recorded for a trade closed at bar `i`: the timestamp of
/// the last kline of the strategy's window, or `now` for an empty window.
pub open spec fn window_entry_time(k: Seq<Kline>, window_size: int, i: int, now: int) -> int {
    if window_size > 0 {
        k[i - 1].timestamp as int
    } else {
        now
    }
}

/// Number of bars a run over `len` klines steps through.
pub open spec fn run_steps(len: int, window_size: int) -> int {
    if len > window_size {
        len - window_size
    } else {
        0
    }
}

/// The account after the first `n` bars of a run over `k`, where bar `j`
/// is kline `window_size + j` and the strategy advised `signals[j]` for it;
/// `None` when a value leaves the range of `i64`.
pub open spec fn simulate(
    st: SimState,
    risk: RiskManager,
    k: Seq<Kline>,
    window_size: int,
    signals: Seq<Signal>,
    now: int,
    n: int,
) -> Option<SimState>
    decreases n,
{
    if n <= 0 {
        Some(st)
    } else {
        match simulate(st, risk, k, window_size, signals, now, n - 1) {
            Some(s) => step(
                s,
                risk,
                k[window_size + n - 1],
                signals[n - 1],
                window_entry_time(k, window_size, window_size + n - 1, now),
            ),
            None => None,
        }
    }
}

/// Where a run stands after some bars: the account, the strategy as it is
/// after the windows it has read, and the error that stopped the run, if any.
pub struct RunState<S> {
    pub account: SimState,
    pub strategy: S,
    pub stopped: Option<QuantError>,
}

/// The klines the strategy reads before acting at bar `i`: the
/// `window_size` klines just before kline `i`, not kline `i` itself.
pub open spec fn bar_window(k: Seq<Kline>, window_size: int, i: int) -> Seq<Kline> {
    k.subrange(i - window_size, i)
}

/// The first `n` bars of a run of `strategy` over `k`: bar `j` is kline
/// `window_size + j`; the strategy reads `bar_window` of it, and the account
/// takes a `step` on the signal it gives. A strategy error stops the run
/// with that error, and an overflow stops it with `QuantError::Overflow`;
/// after a stop nothing more is read or done.
pub open spec fn run_bars<S: Strategy>(
    st: SimState,
    strategy: S,
    risk: RiskManager,
    k: Seq<Kline>,
    window_size: int,
    now: int,
    n: int,
) -> RunState<S>
    decreases n,
{
    if n <= 0 {
        RunState { account: st, strategy, stopped: None }
    } else {
        let prev = run_bars(st, strategy, risk, k, window_size, now, n - 1);
        if prev.stopped is Some {
            prev
        } else {
            let i = window_size + n - 1;
            let w = bar_window(k, window_size, i);
            let next = prev.strategy.after_reading(w);
            match prev.strategy.signal_for(w) {
                Err(e) => RunState { account: prev.account, strategy: next, stopped: Some(e) },
                Ok(signal) => match step(prev.account, risk, k[i], signal, window_entry_time(k, window_size, i, now)) {
                    Some(a) => RunState { account: a, strategy: next, stopped: None },
                    None => RunState { account: prev.account, strategy: next, stopped: Some(QuantError::Overflow) },
                },
            }
        }
    }
}

/// How a run ends, given where it stands after its last bar: the strategy is
/// the one the run left; without a stop the report describes the account;
/// after a stop the error is returned as it came, and unless it was an
/// overflow the account is the one before the failing bar.
pub open spec fn run_ends<S>(
    o: RunState<S>,
    account: SimState,
    strategy: S,
    r: Result<BacktestReport, QuantError>,
    initial_capital: int,
) -> bool {
    &&& strategy == o.strategy
    &&& match o.stopped {
        None => account == o.account && r is Ok && report_of(r->Ok_0, initial_capital, o.account),
        Some(e) => r == Err::<BacktestReport, QuantError>(e) && (e is Overflow || account == o.account),
    }
}

/// Once a run has stopped, further bars change nothing.
pub proof fn lemma_run_bars_stopped_stays<S: Strategy>(
    st: SimState,
    strategy: S,
    risk: RiskManager,
    k: Seq<Kline>,
    window_size: int,
    now: int,
    n: int,
    m: int,
)
    requires
        0 <= n <= m,
        run_bars(st, strategy, risk, k, window_size, now, n).stopped is Some,
    ensures
        run_bars(st, strategy, risk, k, window_size, now, m) == run_bars(
            st,
            strategy,
            risk,
            k,
            window_size,
            now,
            n,
        ),
    decreases m - n,
{
    if m > n {
        lemma_run_bars_stopped_stays(st, strategy, risk, k, window_size, now, n, m - 1);
    }
}

/// Every kline closes at a positive price.
pub open spec fn closes_positive(k: Seq<Kline>) -> bool {
    forall|i: int| 0 <= i < k.len() ==> #[trigger] k[i].close > 0
}

/// An optional `i64` read as an optional integer.
pub open spec fn opt_val(o: Option<i64>) -> Option<int> {
    match o {
        Some(v) => Some(v as int),
        None => None,
    }
}

/// The report of an account after a run that started with `initial_capital`.
pub open spec fn report_of(r: BacktestReport, initial_capital: int, st: SimState) -> bool {
    &&& r.initial_capital == initial_capital
    &&& r.final_capital == final_capital_of(st)
    &&& opt_val(r.total_return_pct) == total_return_of(initial_capital, final_capital_of(st))
    &&& r.total_trades == st.trades.len()
    &&& r.winning_trades == count_winning(st.trades)
    &&& r.losing_trades == count_losing(st.trades)
    &&& r.win_rate == win_rate_of(st.trades)
    &&& opt_val(r.max_drawdown_pct) == fit_opt(max_drawdown_of(st.equity_curve))
    &&& opt_val(r.sharpe_ratio) == sharpe_of(st.equity_curve)
    &&& r.trades@ == st.trades
}

/// `simulate` over `n` bars reads only the first `n` signals.
pub proof fn lemma_simulate_prefix(
    st: SimState,
    risk: RiskManager,
    k: Seq<Kline>,
    window_size: int,
    s1: Seq<Signal>,
    s2: Seq<Signal>,
    now: int,
    n: int,
)
    requires
        0 <= n <= s1.len(),
        n <= s2.len(),
        forall|j: int| 0 <= j < n ==> s1[j] == s2[j],
    ensures
        simulate(st, risk, k, window_size, s1, now, n) == simulate(st, risk, k, window_size, s2, now, n),
    decreases n,
{
    if n > 0 {
        lemma_simulate_prefix(st, risk, k, window_size, s1, s2, now, n - 1);
    }
}

/// Once a run overflows, it stays overflowed.
pub proof fn lemma_simulate_none_stays(
    st: SimState,
    risk: RiskManager,
    k: Seq<Kline>,
    window_size: int,
    signals: Seq<Signal>,
    now: int,
    n: int,
    m: int,
)
    requires
        0 <= n <= m,
        simulate(st, risk, k, window_size, signals, now, n) is None,
    ensures
        simulate(st, risk, k, window_size, signals, now, m) is None,
    decreases m - n,
{
    if m > n {
        lemma_simulate_none_stays(st, risk, k, window_size, signals, now, n, m - 1);
    }
}

} // verus!

verus! {

/// Runs a strategy over klines and keeps the account between runs.
pub struct BacktestEngine<S: Strategy> {
    config: BacktestConfig,
    strategy: S,
    risk_manager: RiskManager,
    balance: i64,
    position_size: i64,
    entry_price: i64,
    position_side: Option<Side>,
    trades: Vec<TradeRecord>,
    equity_curve: Vec<i64>,
}

/// The Sharpe ratio of the per-bar returns `rets`, as `sharpe_of_returns`
/// states.
#[verifier::rlimit(60)]
fn sharpe_of_returns_exec(rets: &Vec<i64>) -> (r: Option<i64>)
    requires
        1 <= rets@.len(),
        forall|q: int| 0 <= q < rets@.len() ==> -RETURN_LIMIT <= #[trigger] rets@[q] <= RETURN_LIMIT,
    ensures
        opt_val(r) == sharpe_of_returns(rets@),
{
    let m = rets.len();
    let ghost rs = rets@;
    let ghost lim = RETURN_LIMIT as int;
    let ghost n = m as int;
    let total = crate::indicator::window_sum(rets, 0, m);
    let mean = crate::indicator::window_mean(rets, 0, m);
    proof {
        crate::fixed::lemma_sum_range_bounds(rs, 0, n, -lim, lim);
        crate::fixed::lemma_div_between(crate::fixed::sum_range(rs, 0, n), n, -lim, lim);
        assert(rs.subrange(0, n) =~= rs);
    }
    let (q, rq) = crate::indicator::window_sq_dev(rets, 0, m, mean, Ghost(lim));
    let ghost big_q = crate::indicator::sq_dev_sum(rs, 0, n, mean as int);
    proof {
        vstd::arithmetic::div_mod::lemma_fundamental_div_mod_converse(big_q, n, q as int, rq as int);
        assert(-lim * n <= total <= lim * n) by (nonlinear_arith)
            requires
                n * (-lim) <= total <= n * lim,
        ;
    }
    let fine = q < 0x1_0000_0000_0000_0000u128 && (m as u128) < 0x1_0000_0000u128;
    let pair: (i128, u128) = if fine {
        let mi = m as i128;
        proof {
            assert(-0x1_0000_0000int * lim <= mi * mean <= 0x1_0000_0000int * lim) by (nonlinear_arith)
                requires
                    1 <= mi < 0x1_0000_0000int,
                    -lim <= mean <= lim,
                    lim >= 0,
            ;
        }
        let rem = total - mi * mean as i128;
        proof {
            vstd::arithmetic::div_mod::lemma_fundamental_div_mod(total as int, n);
            assert(0 <= rem < n);
            assert(0 <= mi * rq < 0x1_0000_0000_0000_0000int) by (nonlinear_arith)
                requires
                    0 <= rq < mi,
                    mi < 0x1_0000_0000int,
            ;
            assert(0 <= rem * rem < 0x1_0000_0000_0000_0000int) by (nonlinear_arith)
                requires
                    0 <= rem < mi,
                    mi < 0x1_0000_0000int,
            ;
            assert(1 <= mi * mi < 0x1_0000_0000_0000_0000int) by (nonlinear_arith)
                requires
                    1 <= mi < 0x1_0000_0000int,
            ;
            assert(mi * rq < mi * mi && rem * rem < mi * mi) by (nonlinear_arith)
                requires
                    0 <= rq < mi,
                    0 <= rem < mi,
            ;
        }
        let num = mi * rq as i128 - rem * rem;
        let nn = mi * mi;
        let f2: i128 = 18_014_398_509_481_984;
        proof {
            assert(0 <= mi * rq < 0x1_0000_0000_0000_0000int) by (nonlinear_arith)
                requires
                    0 <= rq < mi,
                    mi < 0x1_0000_0000int,
            ;
            assert(0 <= rem * rem < 0x1_0000_0000_0000_0000int) by (nonlinear_arith)
                requires
                    0 <= rem < mi,
                    mi < 0x1_0000_0000int,
            ;
            assert(-0x1_0000_0000_0000_0000int * f2 <= num * f2 <= 0x1_0000_0000_0000_0000int * f2)
                by (nonlinear_arith)
                requires
                    -0x1_0000_0000_0000_0000int <= num <= 0x1_0000_0000_0000_0000int,
                    f2 == 18_014_398_509_481_984,
            ;
            assert(1 <= nn) by (nonlinear_arith)
                requires
                    nn == mi * mi,
                    mi >= 1,
            ;
        }
        let frac = floor_div(num * f2, nn);
        proof {
            assert(nn * (-f2) <= num * f2 <= nn * f2) by (nonlinear_arith)
                requires
                    -nn <= num <= nn,
                    f2 > 0,
            ;
            crate::fixed::lemma_div_between(num * f2, nn as int, -f2 as int, f2 as int);
        }
        let vf = q as i128 * f2 + frac;
        proof {
            let sq = crate::indicator::sq_dev_sum(rs, 0, n, 0);
            lemma_sq_dev_sum_shift(rs, 0, n, mean as int);
            lemma_spread_nonneg(rs, n, mean as int);
            let d = returns_spread(rs);
            assert(d == n * sq - total * total);
            let mn = mean as int;
            assert(n * big_q == n * sq - 2 * mn * total * n + n * n * mn * mn) by (nonlinear_arith)
                requires
                    big_q == sq - 2 * mn * total + n * mn * mn,
            ;
            assert(rem * rem == total * total - 2 * n * mn * total + n * n * mn * mn) by (nonlinear_arith)
                requires
                    rem == total - n * mn,
            ;
            assert(2 * mn * total * n == 2 * n * mn * total) by (nonlinear_arith);
            assert(n * big_q == nn * q + n * rq) by (nonlinear_arith)
                requires
                    big_q == q * n + rq,
                    nn == n * n,
            ;
            assert(d == n * big_q - rem * rem);
            assert(d == nn * q + num);
            assert(d >= 0);
            vstd::arithmetic::div_mod::lemma_fundamental_div_mod(num * f2, nn as int);
            assert(vf == (d * f2) / (nn as int)) by {
                let fr = (num * f2) % (nn as int);
                assert(d * f2 == nn * (q * f2 + frac) + fr) by (nonlinear_arith)
                    requires
                        d == nn * q + num,
                        num * f2 == nn * frac + fr,
                ;
                vstd::arithmetic::div_mod::lemma_fundamental_div_mod_converse(
                    d * f2,
                    nn as int,
                    q * f2 + frac,
                    fr,
                );
            }
            assert(0 <= vf <= 0x1_0000_0000_0000_0000int * f2 + f2) by (nonlinear_arith)
                requires
                    vf == q * f2 + frac,
                    0 <= q < 0x1_0000_0000_0000_0000int,
                    -f2 <= frac <= f2,
                    d >= 0,
                    vf == (d * f2) / (nn as int),
                    nn >= 1,
                    f2 > 0,
            {
                vstd::arithmetic::div_mod::lemma_div_pos_is_pos(d * f2, nn as int);
            }
        }
        let mv = floor_div(total * FINE_FACTOR as i128, mi);
        (mv, crate::fixed::isqrt(vf as u128))
    } else {
        (mean as i128, crate::fixed::isqrt(q))
    };
    let (mval, sd) = pair;
    if sd == 0 {
        return Some(0);
    }
    proof {
        if fine {
            lemma_div_between_mean(total as int, n, lim);
        }
        assert(-lim * FINE_FACTOR - 1 <= mval <= lim * FINE_FACTOR);
        assert(SCALE <= sd * SQRT_365 <= 0x1_0000_0000_0000_0000int * SQRT_365) by (nonlinear_arith)
            requires
                1 <= sd < 0x1_0000_0000_0000_0000int,
        ;
        crate::fixed::lemma_div_between(sd * SQRT_365, SCALE as int, 1, sd * SQRT_365);
        assert(-(lim * FINE_FACTOR + 1) * 365 * SCALE <= mval * 365 * SCALE <= (lim * FINE_FACTOR + 1) * 365
            * SCALE) by (nonlinear_arith)
            requires
                -lim * FINE_FACTOR - 1 <= mval <= lim * FINE_FACTOR,
        ;
    }
    let annual_std = (sd as i128 * SQRT_365 as i128) / SCALE as i128;
    let s = floor_div(mval * 365 * SCALE as i128, annual_std);
    if s < i64::MIN as i128 || s > i64::MAX as i128 {
        return None;
    }
    Some(s as i64)
}

/// The refined mean lies within `FINE_FACTOR` times the bound of the returns.
proof fn lemma_div_between_mean(total: int, n: int, lim: int)
    requires
        n >= 1,
        lim >= 0,
        -lim * n <= total <= lim * n,
    ensures
        -lim * FINE_FACTOR <= (total * FINE_FACTOR) / n <= lim * FINE_FACTOR,
{
    assert(n * (-lim * FINE_FACTOR) <= total * FINE_FACTOR <= n * (lim * FINE_FACTOR)) by (nonlinear_arith)
        requires
            -lim * n <= total <= lim * n,
            n >= 1,
    ;
    crate::fixed::lemma_div_between(total * FINE_FACTOR, n, -lim * FINE_FACTOR, lim * FINE_FACTOR);
}

/// A positive floor of `b * SCALE / c` comes from positive cash `b`, and times
/// `c` it is at most `b * SCALE`: buying `quantity` units at `c` costs at most
/// the cash `b`.
proof fn lemma_buy_cost(b: int, c: int, q: int)
    requires
        c > 0,
        q == (b * SCALE) / c,
        q > 0,
    ensures
        b > 0,
        q * c <= b * SCALE,
        0 <= (q * c) / (SCALE as int) <= b,
{
    vstd::arithmetic::div_mod::lemma_fundamental_div_mod(b * SCALE, c);
    assert(q * c <= b * SCALE && b > 0) by (nonlinear_arith)
        requires
            b * SCALE == c * q + (b * SCALE) % c,
            0 <= (b * SCALE) % c < c,
            q > 0,
            c > 0,
    ;
    assert(0 <= q * c) by (nonlinear_arith)
        requires
            q >= 0,
            c > 0,
    ;
    crate::fixed::lemma_div_between(q * c, SCALE as int, 0, b);
}

impl<S: Strategy> BacktestEngine<S> {
    /// The account of the engine.
    pub closed spec fn state(&self) -> SimState {
        SimState {
            balance: self.balance,
            position_size: self.position_size,
            entry_price: self.entry_price,
            position_side: self.position_side,
            trades: self.trades@,
            equity_curve: self.equity_curve@,
        }
    }

    /// The strategy of the engine.
    pub closed spec fn strategy_spec(&self) -> S {
        self.strategy
    }

    /// The risk limits of the engine.
    pub closed spec fn risk(&self) -> RiskManager {
        self.risk_manager
    }

    /// The settings of the engine.
    pub closed spec fn config_spec(&self) -> BacktestConfig {
        self.config
    }

    /// The invariant of an engine: a sound account.
    pub closed spec fn wf(&self) -> bool {
        state_ok(self.state())
    }

    pub fn new(config: BacktestConfig, strategy: S, risk_manager: RiskManager) -> (e: Self)
        ensures
            e.wf(),
            e.config_spec() == config,
            e.risk() == risk_manager,
            e.strategy_spec() == strategy,
            e.state() == (SimState {
                balance: config.initial_capital,
                position_size: 0,
                entry_price: 0,
                position_side: None,
                trades: Seq::empty(),
                equity_curve: Seq::empty(),
            }),
    {
        let initial_capital = config.initial_capital;
        let e = BacktestEngine {
            config,
            strategy,
            risk_manager,
            balance: initial_capital,
            position_size: 0,
            entry_price: 0,
            position_side: None,
            trades: Vec::new(),
            equity_curve: Vec::new(),
        };
        proof {
            assert(e.state().trades =~= Seq::empty());
            assert(e.state().equity_curve =~= Seq::empty());
        }
        e
    }

    /// Closes the open position at `exit_price`, as `close_position` states.
    fn close_position_exec(&mut self, exit_price: i64, exit_time: i64, entry_time: i64) -> (r: Result<(), QuantError>)
        requires
            old(self).wf(),
            old(self).state().position_side is Some,
        ensures
            final(self).config_spec() == old(self).config_spec(),
            final(self).risk() == old(self).risk(),
            final(self).strategy_spec() == old(self).strategy_spec(),
            final(self).wf(),
            match close_position(old(self).state(), exit_price as int, exit_time as int, entry_time as int) {
                Some(st) => r is Ok && final(self).state() == st,
                None => r is Err && final(self).state() == old(self).state(),
            },
    {
        let entry = self.entry_price as i128;
        let size = self.position_size as i128;
        let diff = exit_price as i128 - entry;
        proof {
            assert(-(0x1_0000_0000_0000_0000int - 1) * (0x8000_0000_0000_0000int - 1) <= diff * size
                <= (0x1_0000_0000_0000_0000int - 1) * (0x8000_0000_0000_0000int - 1)) by (nonlinear_arith)
                requires
                    -0x1_0000_0000_0000_0000int < diff < 0x1_0000_0000_0000_0000int,
                    0 <= size < 0x8000_0000_0000_0000int,
            ;
            assert(-0x8000_0000_0000_0000int * 0x8000_0000_0000_0000int <= size * exit_price
                <= 0x8000_0000_0000_0000int * 0x8000_0000_0000_0000int) by (nonlinear_arith)
                requires
                    -0x8000_0000_0000_0000int <= exit_price < 0x8000_0000_0000_0000int,
                    0 <= size < 0x8000_0000_0000_0000int,
            ;
            assert(-0x1_0000_0000_0000_0000int * HUNDRED <= diff * HUNDRED <= 0x1_0000_0000_0000_0000int
                * HUNDRED) by (nonlinear_arith)
                requires
                    -0x1_0000_0000_0000_0000int < diff < 0x1_0000_0000_0000_0000int,
            ;
        }
        let pnl = floor_div(diff * size, SCALE as i128);
        let pnl_pct = floor_div(diff * (HUNDRED as i128), entry);
        let proceeds = floor_div(size * exit_price as i128, SCALE as i128);
        proof {
            crate::fixed::lemma_div_between(
                size * exit_price,
                SCALE as int,
                -0x8000_0000_0000_0000int * 0x8000_0000_0000_0000int,
                0x8000_0000_0000_0000int * 0x8000_0000_0000_0000int,
            );
        }
        let balance = self.balance as i128 + proceeds;
        if !(i64::MIN as i128 <= pnl && pnl <= i64::MAX as i128 && i64::MIN as i128 <= pnl_pct
            && pnl_pct <= i64::MAX as i128 && i64::MIN as i128 <= balance && balance <= i64::MAX as i128) {
            return Err(QuantError::Overflow);
        }
        self.trades.push(
            TradeRecord {
                entry_time,
                exit_time,
                entry_price: self.entry_price,
                exit_price,
                quantity: self.position_size,
                pnl: pnl as i64,
                pnl_pct: pnl_pct as i64,
            },
        );
        self.balance = balance as i64;
        self.position_side = None;
        self.position_size = 0;
        self.entry_price = 0;
        Ok(())
    }

    /// Largest drawdown of the equity curve, as `max_drawdown_of` states,
    /// when it fits an `i64`.
    fn calculate_max_drawdown(&self) -> (r: Option<i64>)
        ensures
            opt_val(r) == fit_opt(max_drawdown_of(self.state().equity_curve)),
    {
        let ghost e = self.state().equity_curve;
        let n = self.equity_curve.len();
        if n == 0 {
            return Some(0);
        }
        let limit: i128 = 0x10_0000_0000_0000_0000_0000_0000;
        let mut peak: i64 = self.equity_curve[0];
        let mut max_drawdown: i128 = 0;
        for i in 0..n
            invariant
                n == e.len(),
                e == self.equity_curve@,
                n > 0,
                limit == 0x10_0000_0000_0000_0000_0000_0000,
                drawdown_scan(e, i as int) == (peak as int, max_drawdown as int),
                0 <= max_drawdown <= limit,
        {
            let equity = self.equity_curve[i];
            if equity > peak {
                peak = equity;
            }
            if peak > 0 {
                let a = (peak as i128 - equity as i128) * HUNDRED as i128;
                proof {
                    assert(0 <= a <= 0x1_0000_0000_0000_0000int * HUNDRED) by (nonlinear_arith)
                        requires
                            a == (peak - equity) * HUNDRED,
                            equity <= peak,
                            peak - equity <= 0x1_0000_0000_0000_0000int,
                    ;
                    assert(a <= peak * a) by (nonlinear_arith)
                        requires
                            a >= 0,
                            peak >= 1,
                    ;
                    crate::fixed::lemma_ceil_between(a as int, peak as int, 0, a as int);
                }
                let drawdown = (a + peak as i128 - 1) / peak as i128;
                if drawdown > max_drawdown {
                    max_drawdown = drawdown;
                }
            }
        }
        if max_drawdown > i64::MAX as i128 {
            None
        } else {
            Some(max_drawdown as i64)
        }
    }

    /// Annualised Sharpe ratio of the equity curve, as `sharpe_of` states.
    #[verifier::rlimit(40)]
    fn calculate_sharpe_ratio(&self) -> (r: Option<i64>)
        requires
            self.wf(),
        ensures
            opt_val(r) == sharpe_of(self.state().equity_curve),
    {
        let ghost e = self.state().equity_curve;
        let n = self.equity_curve.len();
        if n < 2 {
            return Some(0);
        }
        let mut rets: Vec<i64> = Vec::with_capacity(n - 1);
        for j in 0..n - 1
            invariant
                n == e.len(),
                n >= 2,
                e == self.equity_curve@,
                rets@.len() == j,
                forall|q: int|
                    0 <= q < j ==> #[trigger] e[q] != 0 && -RETURN_LIMIT <= bar_return(e, q) <= RETURN_LIMIT,
                forall|q: int| 0 <= q < j ==> #[trigger] rets@[q] == bar_return(e, q),
        {
            let w0 = self.equity_curve[j];
            let w1 = self.equity_curve[j + 1];
            if w0 == 0 {
                return None;
            }
            let change = (w1 as i128 - w0 as i128) * RETURN_SCALE as i128;
            proof {
                assert(-0x1_0000_0000_0000_0000int * RETURN_SCALE <= change <= 0x1_0000_0000_0000_0000int
                    * RETURN_SCALE) by (nonlinear_arith)
                    requires
                        change == (w1 - w0) * RETURN_SCALE,
                        i64::MIN <= w0 <= i64::MAX,
                        i64::MIN <= w1 <= i64::MAX,
                ;
            }
            let r = if w0 > 0 {
                floor_div(change, w0 as i128)
            } else {
                floor_div(-change, -(w0 as i128))
            };
            if r < -(RETURN_LIMIT as i128) || r > RETURN_LIMIT as i128 {
                return None;
            }
            rets.push(r as i64);
        }
        let ghost rs = returns_of(e);
        proof {
            assert(rets@ =~= rs);
        }
        sharpe_of_returns_exec(&rets)
    }

    /// Runs the strategy over `klines`: from kline `window_size` on, the
    /// strategy reads the `window_size` klines before the current one and the
    /// engine acts on its signal at the current close, as `run_bars` states.
    /// A strategy error is returned as it is and ends the run. The account
    /// carries over from earlier runs.
    #[verifier::rlimit(40)]
    pub fn run(&mut self, klines: &[Kline]) -> (r: Result<BacktestReport, QuantError>)
        requires
            old(self).wf(),
        ensures
            final(self).wf(),
            final(self).config_spec() == old(self).config_spec(),
            final(self).risk() == old(self).risk(),
            exists|now: int|
                #![trigger run_bars(
                    old(self).state(),
                    old(self).strategy_spec(),
                    old(self).risk(),
                    klines@,
                    old(self).config_spec().window_size as int,
                    now,
                    run_steps(klines@.len() as int, old(self).config_spec().window_size as int),
                )]
                0 <= now < 9_000_000_000_000_000 && run_ends(
                    run_bars(
                        old(self).state(),
                        old(self).strategy_spec(),
                        old(self).risk(),
                        klines@,
                        old(self).config_spec().window_size as int,
                        now,
                        run_steps(klines@.len() as int, old(self).config_spec().window_size as int),
                    ),
                    final(self).state(),
                    final(self).strategy_spec(),
                    r,
                    old(self).config_spec().initial_capital as int,
                ),
    {
        let window_size = self.config.window_size;
        let n = klines.len();
        let now = crate::runtime::now_millis();
        let ghost st0 = self.state();
        let ghost s0 = self.strategy_spec();
        let ghost risk0 = self.risk();
        let ghost ws = window_size as int;
        let ghost total = run_steps(n as int, ws);
        if n > window_size {
            for i in window_size..n
                invariant
                    n == klines@.len(),
                    self.wf(),
                    self.risk() == risk0,
                    self.config_spec() == old(self).config_spec(),
                    risk0 == old(self).risk(),
                    st0 == old(self).state(),
                    s0 == old(self).strategy_spec(),
                    0 <= now < 9_000_000_000_000_000,
                    ws == window_size,
                    window_size == self.config_spec().window_size,
                    total == n - window_size,
                    total == run_steps(klines@.len() as int, ws),
                    run_bars(st0, s0, risk0, klines@, ws, now as int, i - ws) == (RunState {
                        account: self.state(),
                        strategy: self.strategy_spec(),
                        stopped: None,
                    }),
            {
                let window = &klines[i - window_size..i];
                proof {
                    assert(window@ == bar_window(klines@, ws, i as int));
                }
                let ghost before = self.strategy_spec();
                let res = self.strategy.on_data(window);
                proof {
                    assert(res == before.signal_for(bar_window(klines@, ws, i as int)));
                    assert(self.strategy_spec() == before.after_reading(bar_window(klines@, ws, i as int)));
                }
                let signal = match res {
                    Ok(s) => s,
                    Err(e) => {
                        proof {
                            assert(run_bars(st0, s0, risk0, klines@, ws, now as int, i - ws + 1) == (RunState {
                                account: self.state(),
                                strategy: self.strategy_spec(),
                                stopped: Some(e),
                            }));
                            lemma_run_bars_stopped_stays(st0, s0, risk0, klines@, ws, now as int, i - ws + 1, total);
                            assert(run_ends(
                                run_bars(st0, s0, risk0, klines@, ws, now as int, total),
                                self.state(),
                                self.strategy_spec(),
                                Err::<BacktestReport, QuantError>(e),
                                old(self).config_spec().initial_capital as int,
                            ));
                        }
                        return Err(e);
                    },
                };
                let entry_time = if window_size > 0 {
                    klines[i - 1].timestamp
                } else {
                    now
                };
                let stepped = self.apply_step(&klines[i], signal, entry_time);
                if stepped.is_err() {
                    proof {
                        assert(run_bars(st0, s0, risk0, klines@, ws, now as int, i - ws + 1).stopped
                            == Some(QuantError::Overflow));
                        lemma_run_bars_stopped_stays(st0, s0, risk0, klines@, ws, now as int, i - ws + 1, total);
                        assert(run_ends(
                            run_bars(st0, s0, risk0, klines@, ws, now as int, total),
                            self.state(),
                            self.strategy_spec(),
                            Err::<BacktestReport, QuantError>(QuantError::Overflow),
                            old(self).config_spec().initial_capital as int,
                        ));
                    }
                    return Err(QuantError::Overflow);
                }
            }
        }
        let report = self.build_report();
        proof {
            assert(run_bars(st0, s0, risk0, klines@, ws, now as int, total) == (RunState {
                account: self.state(),
                strategy: self.strategy_spec(),
                stopped: None,
            }));
            assert(run_ends(
                run_bars(st0, s0, risk0, klines@, ws, now as int, total),
                self.state(),
                self.strategy_spec(),
                Ok::<BacktestReport, QuantError>(report),
                old(self).config_spec().initial_capital as int,
            ));
        }
        Ok(report)
    }

    /// Runs the engine over `klines` with the signals of a strategy given in
    /// advance: `signals[j]` is the signal for kline `window_size + j`, and
    /// `now` stamps trades whose window is empty.
    #[verifier::rlimit(40)]
    pub fn replay(&mut self, klines: &[Kline], signals: &[Signal], now: i64) -> (r: Result<BacktestReport, QuantError>)
        requires
            old(self).wf(),
            signals@.len() == run_steps(klines@.len() as int, old(self).config_spec().window_size as int),
        ensures
            final(self).wf(),
            state_ok(final(self).state()),
            final(self).config_spec() == old(self).config_spec(),
            final(self).risk() == old(self).risk(),
            match simulate(
                old(self).state(),
                old(self).risk(),
                klines@,
                old(self).config_spec().window_size as int,
                signals@,
                now as int,
                signals@.len() as int,
            ) {
                Some(st) => r is Ok && final(self).state() == st && report_of(
                    r->Ok_0,
                    old(self).config_spec().initial_capital as int,
                    st,
                ),
                None => r matches Err(QuantError::Overflow),
            },
    {
        let window_size = self.config.window_size;
        let n = klines.len();
        let ghost st0 = self.state();
        let ghost risk0 = self.risk();
        let ghost total = signals@.len() as int;
        if n > window_size {
            for i in window_size..n
                invariant
                    n == klines@.len(),
                    self.wf(),
                    self.risk() == risk0,
                    self.config_spec() == old(self).config_spec(),
                    risk0 == old(self).risk(),
                    st0 == old(self).state(),
                    window_size == self.config_spec().window_size,
                    total == signals@.len(),
                    total == n - window_size,
                    simulate(st0, risk0, klines@, window_size as int, signals@, now as int, i - window_size)
                        == Some(self.state()),
            {
                let signal = signals[i - window_size];
                let entry_time = if window_size > 0 {
                    klines[i - 1].timestamp
                } else {
                    now
                };
                let stepped = self.apply_step(&klines[i], signal, entry_time);
                if stepped.is_err() {
                    proof {
                        lemma_simulate_none_stays(st0, risk0, klines@, window_size as int, signals@, now as int, i - window_size + 1, total);
                    }
                    return Err(QuantError::Overflow);
                }
            }
        }
        Ok(self.build_report())
    }

    /// The report of the current account, as `report_of` states.
    #[verifier::rlimit(40)]
    fn build_report(&self) -> (r: BacktestReport)
        requires
            self.wf(),
        ensures
            report_of(r, self.config_spec().initial_capital as int, self.state()),
    {
        let ghost t = self.state().trades;
        let n = self.trades.len();
        let mut winning: usize = 0;
        let mut losing: usize = 0;
        let mut trades: Vec<TradeRecord> = Vec::with_capacity(n);
        for i in 0..n
            invariant
                n == t.len(),
                t == self.trades@,
                winning == count_winning(t.take(i as int)),
                losing == count_losing(t.take(i as int)),
                winning + losing == i,
                trades@ == t.take(i as int),
        {
            proof {
                assert(t.take(i + 1).drop_last() =~= t.take(i as int));
                assert(t.take(i + 1).last() == t[i as int]);
            }
            let tr = self.trades[i];
            if tr.pnl > 0 {
                winning = winning + 1;
            } else {
                losing = losing + 1;
            }
            trades.push(tr);
            proof {
                assert(trades@ =~= t.take(i + 1));
            }
        }
        proof {
            assert(t.take(n as int) =~= t);
        }
        let win_rate = if n > 0 {
            proof {
                assert(0 <= winning * SCALE <= n * SCALE) by (nonlinear_arith)
                    requires
                        winning <= n,
                ;
                crate::fixed::lemma_div_between(winning * SCALE, n as int, 0, SCALE as int);
            }
            ((winning as i128 * SCALE as i128) / n as i128) as i64
        } else {
            0
        };
        let initial_capital = self.config.initial_capital;
        let final_capital = if self.position_side.is_some() && self.equity_curve.len() > 0 {
            self.equity_curve[self.equity_curve.len() - 1]
        } else {
            self.balance
        };
        let gain = (final_capital as i128 - initial_capital as i128) * HUNDRED as i128;
        proof {
            assert(-0x1_0000_0000_0000_0000int * HUNDRED <= gain <= 0x1_0000_0000_0000_0000int * HUNDRED)
                by (nonlinear_arith)
                requires
                    gain == (final_capital - initial_capital) * HUNDRED,
                    i64::MIN <= final_capital <= i64::MAX,
                    i64::MIN <= initial_capital <= i64::MAX,
            ;
        }
        let total_return_pct = if initial_capital == 0 {
            None
        } else {
            let ret = if initial_capital > 0 {
                floor_div(gain, initial_capital as i128)
            } else {
                floor_div(-gain, -(initial_capital as i128))
            };
            if i64::MIN as i128 <= ret && ret <= i64::MAX as i128 {
                Some(ret as i64)
            } else {
                None
            }
        };
        let max_drawdown_pct = self.calculate_max_drawdown();
        let sharpe_ratio = self.calculate_sharpe_ratio();
        BacktestReport {
            initial_capital,
            final_capital,
            total_return_pct,
            total_trades: n,
            winning_trades: winning,
            losing_trades: losing,
            win_rate,
            max_drawdown_pct,
            sharpe_ratio,
            trades,
        }
    }

    /// One bar of the backtest at kline `k`, as `step` states.
    #[verifier::rlimit(40)]
    fn apply_step(&mut self, k: &Kline, signal: Signal, entry_time: i64) -> (r: Result<(), QuantError>)
        requires
            old(self).wf(),
        ensures
            final(self).config_spec() == old(self).config_spec(),
            final(self).risk() == old(self).risk(),
            final(self).strategy_spec() == old(self).strategy_spec(),
            final(self).wf(),
            match step(old(self).state(), old(self).risk(), *k, signal, entry_time as int) {
                Some(st) => r is Ok && final(self).state() == st,
                None => r matches Err(QuantError::Overflow),
            },
    {
        let close = k.close;
        let ghost st0 = self.state();
        if signal == Signal::Buy && self.position_side.is_none() {
            // An all-in buy is worth the whole cash: its value is checked as
            // the cash itself, at a unit price.
            if close > 0 && self.risk_manager.check_position_size(self.balance, SCALE) {
                proof {
                    assert(i64::MIN * SCALE <= self.balance * SCALE <= i64::MAX * SCALE) by (nonlinear_arith)
                        requires
                            i64::MIN <= self.balance <= i64::MAX,
                    ;
                }
                let q = floor_div(self.balance as i128 * SCALE as i128, close as i128);
                if q > 0 {
                    proof {
                        lemma_buy_cost(self.balance as int, close as int, q as int);
                    }
                    if q > i64::MAX as i128 {
                        return Err(QuantError::Overflow);
                    }
                    let quantity = q as i64;
                    proof {
                        assert(0 <= q * close <= i64::MAX * i64::MAX) by (nonlinear_arith)
                            requires
                                0 <= q <= i64::MAX,
                                0 < close <= i64::MAX,
                        ;
                    }
                    let cost = floor_div(q * close as i128, SCALE as i128);
                    self.balance = (self.balance as i128 - cost) as i64;
                    self.position_side = Some(Side::Buy);
                    self.position_size = quantity;
                    self.entry_price = close;
                }
            }
        } else if signal == Signal::Sell && self.position_side.is_some() {
            let res = self.close_position_exec(close, k.timestamp, entry_time);
            if res.is_err() {
                return Err(QuantError::Overflow);
            }
        }
        let ghost st1 = self.state();
        proof {
            assert(apply_signal(st0, self.risk(), *k, signal, entry_time as int) == Some(st1));
        }
        if self.position_side.is_some() {
            if self.risk_manager.check_stop_loss(self.entry_price, close, Side::Buy)
                || self.risk_manager.check_take_profit(self.entry_price, close, Side::Buy) {
                let res = self.close_position_exec(close, k.timestamp, entry_time);
                if res.is_err() {
                    return Err(QuantError::Overflow);
                }
            } else {
                proof {
                    assert(-0x8000_0000_0000_0000int * 0x8000_0000_0000_0000int <= self.position_size * close
                        <= 0x8000_0000_0000_0000int * 0x8000_0000_0000_0000int) by (nonlinear_arith)
                        requires
                            0 <= self.position_size <= i64::MAX,
                            i64::MIN <= close <= i64::MAX,
                    ;
                    crate::fixed::lemma_div_between(
                        self.position_size * close,
                        SCALE as int,
                        -0x8000_0000_0000_0000int * 0x8000_0000_0000_0000int,
                        0x8000_0000_0000_0000int * 0x8000_0000_0000_0000int,
                    );
                }
                let value = floor_div(self.position_size as i128 * close as i128, SCALE as i128);
                let equity = self.balance as i128 + value;
                if equity < i64::MIN as i128 || equity > i64::MAX as i128 {
                    return Err(QuantError::Overflow);
                }
                self.equity_curve.push(equity as i64);
                proof {
                    assert(self.state().equity_curve =~= st1.equity_curve.push(equity as i64));
                }
            }
        } else {
            self.equity_curve.push(self.balance);
            proof {
                assert(self.state().equity_curve =~= st1.equity_curve.push(st1.balance));
            }
        }
        Ok(())
    }
}

} // verus!

verus! {

/// Every trade is counted exactly once, as winning or as losing.
pub proof fn lemma_trade_counts_partition(t: Seq<TradeRecord>)
    ensures
        count_winning(t) + count_losing(t) == t.len(),
    decreases t.len(),
{
    if t.len() > 0 {
        lemma_trade_counts_partition(t.drop_last());
    }
}

/// The win rate is a fraction between zero and one.
pub proof fn lemma_win_rate_range(t: Seq<TradeRecord>)
    ensures
        0 <= win_rate_of(t) <= SCALE,
{
    lemma_trade_counts_partition(t);
    if t.len() > 0 {
        assert(0 <= count_winning(t) * SCALE <= t.len() * SCALE) by (nonlinear_arith)
            requires
                count_winning(t) <= t.len(),
        ;
        crate::fixed::lemma_div_between(count_winning(t) * SCALE, t.len() as int, 0, SCALE as int);
    }
}

/// On a curve of non-negative equity the largest drawdown lies between zero
/// and one hundred percent.
pub proof fn lemma_max_drawdown_range(e: Seq<i64>)
    requires
        forall|j: int| 0 <= j < e.len() ==> #[trigger] e[j] >= 0,
    ensures
        0 <= max_drawdown_of(e) <= HUNDRED,
{
    if e.len() > 0 {
        lemma_drawdown_scan_range(e, e.len() as int);
    }
}

/// The equity values `e[0..n]` never fall.
pub open spec fn never_falls(e: Seq<i64>, n: int) -> bool {
    forall|i: int, j: int| 0 <= i <= j < n ==> #[trigger] e[i] <= #[trigger] e[j]
}

/// On a curve of positive equity the largest drawdown is zero exactly when
/// the curve never falls: every fall, however small, counts.
pub proof fn lemma_max_drawdown_zero_iff_never_falls(e: Seq<i64>)
    requires
        forall|j: int| 0 <= j < e.len() ==> #[trigger] e[j] > 0,
    ensures
        max_drawdown_of(e) == 0 <==> never_falls(e, e.len() as int),
{
    if e.len() > 0 {
        lemma_drawdown_scan_zero(e, e.len() as int);
    }
}

#[verifier::spinoff_prover]
proof fn lemma_drawdown_scan_zero(e: Seq<i64>, n: int)
    requires
        0 < n <= e.len(),
        forall|j: int| 0 <= j < e.len() ==> #[trigger] e[j] > 0,
    ensures
        drawdown_scan(e, n).0 > 0,
        drawdown_scan(e, n).1 >= 0,
        forall|j: int| 0 <= j < n ==> #[trigger] e[j] <= drawdown_scan(e, n).0,
        exists|j: int| 0 <= j < n && #[trigger] e[j] == drawdown_scan(e, n).0,
        drawdown_scan(e, n).1 == 0 <==> never_falls(e, n),
    decreases n,
{
    assert(e[0] > 0);
    let x = e[n - 1] as int;
    assert(x > 0);
    if n == 1 {
        assert((0 + x - 1) / x == 0) by {
            vstd::arithmetic::div_mod::lemma_fundamental_div_mod(x - 1, x);
            let q = (x - 1) / x;
            let r = (x - 1) % x;
            assert(q == 0) by (nonlinear_arith)
                requires
                    x - 1 == x * q + r,
                    0 <= r < x,
                    x > 0,
            ;
        }
        assert(e[0] == drawdown_scan(e, n).0);
    } else {
        lemma_drawdown_scan_zero(e, n - 1);
        let prev = drawdown_scan(e, n - 1);
        let peak = if x > prev.0 {
            x
        } else {
            prev.0
        };
        let dd = ((peak - x) * HUNDRED + peak - 1) / peak;
        if x < peak {
            assert((peak - x) * HUNDRED > peak * 0) by (nonlinear_arith)
                requires
                    x < peak,
            ;
            crate::fixed::lemma_ceil_above((peak - x) * HUNDRED, peak, 0);
            assert(dd > 0);
            let w = choose|j: int| 0 <= j < n - 1 && #[trigger] e[j] == prev.0;
            assert(!never_falls(e, n)) by {
                assert(e[w] > e[n - 1]);
            }
        } else {
            assert(dd == 0) by {
                vstd::arithmetic::div_mod::lemma_fundamental_div_mod(peak - 1, peak);
                let q = (peak - 1) / peak;
                let r = (peak - 1) % peak;
                assert(q == 0) by (nonlinear_arith)
                    requires
                        peak - 1 == peak * q + r,
                        0 <= r < peak,
                        peak > 0,
                ;
            }
            if never_falls(e, n - 1) {
                assert forall|i: int, j: int| 0 <= i <= j < n implies #[trigger] e[i] <= #[trigger] e[j] by {
                    if j == n - 1 && i < n - 1 {
                        assert(e[i] <= prev.0);
                    }
                }
            }
            if never_falls(e, n) {
                assert forall|i: int, j: int| 0 <= i <= j < n - 1 implies #[trigger] e[i] <= #[trigger] e[j] by {
                    assert(e[i] <= e[j]);
                }
            }
        }
        assert(drawdown_scan(e, n).0 == peak);
        if x > prev.0 {
            assert(e[n - 1] == drawdown_scan(e, n).0);
        } else {
            let w = choose|j: int| 0 <= j < n - 1 && #[trigger] e[j] == prev.0;
            assert(e[w] == drawdown_scan(e, n).0);
        }
    }
}

proof fn lemma_drawdown_scan_range(e: Seq<i64>, n: int)
    requires
        0 < e.len(),
        n <= e.len(),
        forall|j: int| 0 <= j < e.len() ==> #[trigger] e[j] >= 0,
    ensures
        drawdown_scan(e, n).0 >= 0,
        0 <= drawdown_scan(e, n).1 <= HUNDRED,
        n > 0 ==> forall|j: int| 0 <= j < n ==> #[trigger] e[j] <= drawdown_scan(e, n).0,
    decreases n,
{
    assert(e[0] >= 0);
    if n > 0 {
        lemma_drawdown_scan_range(e, n - 1);
        let prev = drawdown_scan(e, n - 1);
        let x = e[n - 1] as int;
        assert(x >= 0);
        let peak = if x > prev.0 {
            x
        } else {
            prev.0
        };
        if peak > 0 {
            assert(0 <= (peak - x) * HUNDRED <= peak * HUNDRED) by (nonlinear_arith)
                requires
                    0 <= x <= peak,
            ;
            crate::fixed::lemma_ceil_between((peak - x) * HUNDRED, peak, 0, HUNDRED as int);
        }
    }
}

/// A run never rewrites history: the trades and the equity recorded before
/// it stay, in order, at the front of those after it.
pub proof fn lemma_simulate_appends(
    st: SimState,
    risk: RiskManager,
    k: Seq<Kline>,
    window_size: int,
    signals: Seq<Signal>,
    now: int,
    n: int,
)
    requires
        simulate(st, risk, k, window_size, signals, now, n) is Some,
    ensures
        st.trades.is_prefix_of(simulate(st, risk, k, window_size, signals, now, n)->0.trades),
        st.equity_curve.is_prefix_of(simulate(st, risk, k, window_size, signals, now, n)->0.equity_curve),
    decreases n,
{
    if n > 0 {
        lemma_simulate_appends(st, risk, k, window_size, signals, now, n - 1);
    }
}

} // verus!

verus! {

/// An open position respects the risk manager's largest position value.
pub open spec fn position_within_limit(st: SimState, risk: RiskManager) -> bool {
    st.position_side is Some ==> position_size_ok(
        risk.max_position_size_spec(),
        st.position_size as int,
        st.entry_price as int,
    )
}

/// Every recorded trade was opened within the largest position value.
pub open spec fn trades_within_limit(t: Seq<TradeRecord>, risk: RiskManager) -> bool {
    forall|i: int|
        0 <= i < t.len() ==> position_size_ok(
            risk.max_position_size_spec(),
            (#[trigger] t[i]).quantity as int,
            t[i].entry_price as int,
        )
}

/// A bar only records trades of positions that respected the largest
/// position value.
pub proof fn lemma_step_keeps_trades_within_limit(
    st: SimState,
    risk: RiskManager,
    k: Kline,
    signal: Signal,
    entry_time: int,
)
    requires
        state_ok(st),
        position_within_limit(st, risk),
        trades_within_limit(st.trades, risk),
        step(st, risk, k, signal, entry_time) is Some,
    ensures
        trades_within_limit((step(st, risk, k, signal, entry_time)->0).trades, risk),
{
    let c = k.close as int;
    lemma_step_buy(st, risk, k, signal);
    let s1 = apply_signal(st, risk, k, signal, entry_time)->0;
    assert(position_within_limit(s1, risk));
    assert(trades_within_limit(s1.trades, risk)) by {
        if signal == Signal::Sell && st.position_side is Some {
            assert forall|i: int| 0 <= i < s1.trades.len() implies position_size_ok(
                risk.max_position_size_spec(),
                (#[trigger] s1.trades[i]).quantity as int,
                s1.trades[i].entry_price as int,
            ) by {
                if i < st.trades.len() {
                    assert(s1.trades[i] == st.trades[i]);
                }
            }
        }
    }
    let s2 = step(st, risk, k, signal, entry_time)->0;
    assert forall|i: int| 0 <= i < s2.trades.len() implies position_size_ok(
        risk.max_position_size_spec(),
        (#[trigger] s2.trades[i]).quantity as int,
        s2.trades[i].entry_price as int,
    ) by {
        if i < s1.trades.len() {
            assert(s2.trades[i] == s1.trades[i]);
        }
    }
}

/// Every position a backtest opens respects the largest position value, and
/// no bar ends with an open position whose loss has reached the stop loss or
/// whose profit has reached the take profit at that bar's close.
pub proof fn lemma_step_respects_limits(st: SimState, risk: RiskManager, k: Kline, signal: Signal, entry_time: int)
    requires
        state_ok(st),
        position_within_limit(st, risk),
        step(st, risk, k, signal, entry_time) is Some,
    ensures
        position_within_limit(step(st, risk, k, signal, entry_time)->0, risk),
        (step(st, risk, k, signal, entry_time)->0).position_side is Some ==> {
            let e = (step(st, risk, k, signal, entry_time)->0).entry_price as int;
            &&& !loss_reaches(e, k.close as int, Side::Buy, risk.stop_loss_pct_spec())
            &&& !profit_reaches(e, k.close as int, Side::Buy, risk.take_profit_pct_spec())
        },
{
    lemma_step_buy(st, risk, k, signal);
}

/// The limits of `lemma_step_respects_limits` hold after every bar of a run.
pub proof fn lemma_simulate_respects_limits(
    st: SimState,
    risk: RiskManager,
    k: Seq<Kline>,
    window_size: int,
    signals: Seq<Signal>,
    now: int,
    n: int,
)
    requires
        state_ok(st),
        position_within_limit(st, risk),
        simulate(st, risk, k, window_size, signals, now, n) is Some,
    ensures
        position_within_limit(simulate(st, risk, k, window_size, signals, now, n)->0, risk),
    decreases n,
{
    if n > 0 {
        lemma_simulate_respects_limits(st, risk, k, window_size, signals, now, n - 1);
        lemma_simulate_keeps_state_ok(st, risk, k, window_size, signals, now, n - 1);
        let s = simulate(st, risk, k, window_size, signals, now, n - 1)->0;
        lemma_step_respects_limits(
            s,
            risk,
            k[window_size + n - 1],
            signals[n - 1],
            window_entry_time(k, window_size, window_size + n - 1, now),
        );
    }
}

/// A buy that happens spends positive cash on a positive quantity, and at
/// most that cash.
proof fn lemma_step_buy(st: SimState, risk: RiskManager, k: Kline, signal: Signal)
    ensures
        signal == Signal::Buy && st.position_side is None && k.close > 0 && (st.balance * SCALE)
            / (k.close as int) > 0 ==> {
            let q = (st.balance * SCALE) / (k.close as int);
            &&& st.balance > 0
            &&& q * k.close <= st.balance * SCALE
            &&& 0 <= (q * k.close) / (SCALE as int) <= st.balance
        },
{
    if signal == Signal::Buy && st.position_side is None && k.close > 0 {
        let q = (st.balance * SCALE) / (k.close as int);
        if q > 0 {
            lemma_buy_cost(st.balance as int, k.close as int, q);
        }
    }
}

/// Every bar keeps the account's invariant: no negative position, and a
/// positive entry price while a position is open.
pub proof fn lemma_step_keeps_state_ok(st: SimState, risk: RiskManager, k: Kline, signal: Signal, entry_time: int)
    requires
        state_ok(st),
        step(st, risk, k, signal, entry_time) is Some,
    ensures
        state_ok(step(st, risk, k, signal, entry_time)->0),
{
    lemma_step_buy(st, risk, k, signal);
}

/// With non-negative cash, a bar at a positive close keeps cash and recorded
/// equity from becoming negative.
pub proof fn lemma_step_keeps_account_sound(st: SimState, risk: RiskManager, k: Kline, signal: Signal, entry_time: int)
    requires
        state_ok(st),
        account_nonneg(st),
        k.close > 0,
        step(st, risk, k, signal, entry_time) is Some,
    ensures
        state_ok(step(st, risk, k, signal, entry_time)->0),
        account_nonneg(step(st, risk, k, signal, entry_time)->0),
{
    let c = k.close as int;
    lemma_step_buy(st, risk, k, signal);
    let s1 = apply_signal(st, risk, k, signal, entry_time)->0;
    assert(state_ok(s1) && account_nonneg(s1)) by {
        if signal == Signal::Sell && st.position_side is Some {
            assert(0 <= st.position_size * c) by (nonlinear_arith)
                requires
                    st.position_size >= 0,
                    c > 0,
            ;
            vstd::arithmetic::div_mod::lemma_div_pos_is_pos(st.position_size * c, SCALE as int);
        }
    }
    if s1.position_side is Some {
        assert(0 <= s1.position_size * c) by (nonlinear_arith)
            requires
                s1.position_size >= 0,
                c > 0,
        ;
        vstd::arithmetic::div_mod::lemma_div_pos_is_pos(s1.position_size * c, SCALE as int);
    }
}

/// Over a whole run the account keeps its invariant.
pub proof fn lemma_simulate_keeps_state_ok(
    st: SimState,
    risk: RiskManager,
    k: Seq<Kline>,
    window_size: int,
    signals: Seq<Signal>,
    now: int,
    n: int,
)
    requires
        state_ok(st),
        simulate(st, risk, k, window_size, signals, now, n) is Some,
    ensures
        state_ok(simulate(st, risk, k, window_size, signals, now, n)->0),
    decreases n,
{
    if n > 0 {
        lemma_simulate_keeps_state_ok(st, risk, k, window_size, signals, now, n - 1);
        let s = simulate(st, risk, k, window_size, signals, now, n - 1)->0;
        lemma_step_keeps_state_ok(
            s,
            risk,
            k[window_size + n - 1],
            signals[n - 1],
            window_entry_time(k, window_size, window_size + n - 1, now),
        );
    }
}

/// Over a whole run at positive closes, from non-negative cash, cash and
/// recorded equity never become negative.
pub proof fn lemma_simulate_keeps_account_sound(
    st: SimState,
    risk: RiskManager,
    k: Seq<Kline>,
    window_size: int,
    signals: Seq<Signal>,
    now: int,
    n: int,
)
    requires
        state_ok(st),
        account_nonneg(st),
        closes_positive(k),
        0 <= window_size,
        window_size + n <= k.len(),
        simulate(st, risk, k, window_size, signals, now, n) is Some,
    ensures
        state_ok(simulate(st, risk, k, window_size, signals, now, n)->0),
        account_nonneg(simulate(st, risk, k, window_size, signals, now, n)->0),
    decreases n,
{
    if n > 0 {
        lemma_simulate_keeps_account_sound(st, risk, k, window_size, signals, now, n - 1);
        let s = simulate(st, risk, k, window_size, signals, now, n - 1)->0;
        assert(k[window_size + n - 1].close > 0);
        lemma_step_keeps_account_sound(
            s,
            risk,
            k[window_size + n - 1],
            signals[n - 1],
            window_entry_time(k, window_size, window_size + n - 1, now),
        );
    }
}

/// Over a run of any strategy, on any klines, the account keeps its
/// invariant.
pub proof fn lemma_run_keeps_state_ok<S: Strategy>(
    st: SimState,
    strategy: S,
    risk: RiskManager,
    k: Seq<Kline>,
    window_size: int,
    now: int,
    n: int,
)
    requires
        state_ok(st),
    ensures
        state_ok(run_bars(st, strategy, risk, k, window_size, now, n).account),
    decreases n,
{
    if n > 0 {
        lemma_run_keeps_state_ok(st, strategy, risk, k, window_size, now, n - 1);
        let prev = run_bars(st, strategy, risk, k, window_size, now, n - 1);
        let i = window_size + n - 1;
        let w = bar_window(k, window_size, i);
        if prev.stopped is None {
            if let Ok(signal) = prev.strategy.signal_for(w) {
                if step(prev.account, risk, k[i], signal, window_entry_time(k, window_size, i, now)) is Some {
                    lemma_step_keeps_state_ok(
                        prev.account,
                        risk,
                        k[i],
                        signal,
                        window_entry_time(k, window_size, i, now),
                    );
                }
            }
        }
    }
}

/// Over a run of any strategy at positive closes, from non-negative cash,
/// cash and recorded equity never become negative.
pub proof fn lemma_run_keeps_account_sound<S: Strategy>(
    st: SimState,
    strategy: S,
    risk: RiskManager,
    k: Seq<Kline>,
    window_size: int,
    now: int,
    n: int,
)
    requires
        state_ok(st),
        account_nonneg(st),
        closes_positive(k),
        0 <= window_size,
        window_size + n <= k.len(),
    ensures
        state_ok(run_bars(st, strategy, risk, k, window_size, now, n).account),
        account_nonneg(run_bars(st, strategy, risk, k, window_size, now, n).account),
    decreases n,
{
    if n > 0 {
        lemma_run_keeps_account_sound(st, strategy, risk, k, window_size, now, n - 1);
        let prev = run_bars(st, strategy, risk, k, window_size, now, n - 1);
        let i = window_size + n - 1;
        let w = bar_window(k, window_size, i);
        if prev.stopped is None {
            if let Ok(signal) = prev.strategy.signal_for(w) {
                assert(k[i].close > 0);
                if step(prev.account, risk, k[i], signal, window_entry_time(k, window_size, i, now)) is Some {
                    lemma_step_keeps_account_sound(
                        prev.account,
                        risk,
                        k[i],
                        signal,
                        window_entry_time(k, window_size, i, now),
                    );
                }
            }
        }
    }
}

/// Over a run of any strategy, every open position and every recorded trade
/// respects the largest position value, and a bar that the run completes
/// never ends with an open position whose loss has reached the stop loss or
/// whose profit has reached the take profit at that bar's close.
pub proof fn lemma_run_respects_limits<S: Strategy>(
    st: SimState,
    strategy: S,
    risk: RiskManager,
    k: Seq<Kline>,
    window_size: int,
    now: int,
    n: int,
)
    requires
        state_ok(st),
        position_within_limit(st, risk),
        trades_within_limit(st.trades, risk),
    ensures
        position_within_limit(run_bars(st, strategy, risk, k, window_size, now, n).account, risk),
        trades_within_limit(run_bars(st, strategy, risk, k, window_size, now, n).account.trades, risk),
        ({
            let o = run_bars(st, strategy, risk, k, window_size, now, n);
            n > 0 && o.stopped is None && o.account.position_side is Some ==> {
                let e = o.account.entry_price as int;
                let c = k[window_size + n - 1].close as int;
                &&& !loss_reaches(e, c, Side::Buy, risk.stop_loss_pct_spec())
                &&& !profit_reaches(e, c, Side::Buy, risk.take_profit_pct_spec())
            }
        }),
    decreases n,
{
    if n > 0 {
        lemma_run_respects_limits(st, strategy, risk, k, window_size, now, n - 1);
        lemma_run_keeps_state_ok(st, strategy, risk, k, window_size, now, n - 1);
        let prev = run_bars(st, strategy, risk, k, window_size, now, n - 1);
        let i = window_size + n - 1;
        let w = bar_window(k, window_size, i);
        if prev.stopped is None {
            if let Ok(signal) = prev.strategy.signal_for(w) {
                if step(prev.account, risk, k[i], signal, window_entry_time(k, window_size, i, now)) is Some {
                    lemma_step_respects_limits(
                        prev.account,
                        risk,
                        k[i],
                        signal,
                        window_entry_time(k, window_size, i, now),
                    );
                    lemma_step_keeps_trades_within_limit(
                        prev.account,
                        risk,
                        k[i],
                        signal,
                        window_entry_time(k, window_size, i, now),
                    );
                }
            }
        }
    }
}

/// The signals a run of `strategy` acts on in its first `n` bars (a bar
/// whose window the strategy refuses counts as `Hold`).
pub open spec fn run_signals<S: Strategy>(
    st: SimState,
    strategy: S,
    risk: RiskManager,
    k: Seq<Kline>,
    window_size: int,
    now: int,
    n: int,
) -> Seq<Signal>
    decreases n,
{
    if n <= 0 {
        Seq::empty()
    } else {
        let prev = run_bars(st, strategy, risk, k, window_size, now, n - 1);
        let w = bar_window(k, window_size, window_size + n - 1);
        run_signals(st, strategy, risk, k, window_size, now, n - 1).push(
            match prev.strategy.signal_for(w) {
                Ok(signal) => signal,
                Err(_) => Signal::Hold,
            },
        )
    }
}

/// A run that no error stopped is a replay of the signals its strategy gave:
/// the account it ends with is the one `simulate` gives for them.
pub proof fn lemma_run_is_replay<S: Strategy>(
    st: SimState,
    strategy: S,
    risk: RiskManager,
    k: Seq<Kline>,
    window_size: int,
    now: int,
    n: int,
)
    requires
        n >= 0,
        run_bars(st, strategy, risk, k, window_size, now, n).stopped is None,
    ensures
        run_signals(st, strategy, risk, k, window_size, now, n).len() == n,
        simulate(
            st,
            risk,
            k,
            window_size,
            run_signals(st, strategy, risk, k, window_size, now, n),
            now,
            n,
        ) == Some(run_bars(st, strategy, risk, k, window_size, now, n).account),
    decreases n,
{
    if n > 0 {
        let prev = run_bars(st, strategy, risk, k, window_size, now, n - 1);
        assert(prev.stopped is None);
        lemma_run_is_replay(st, strategy, risk, k, window_size, now, n - 1);
        let sp = run_signals(st, strategy, risk, k, window_size, now, n - 1);
        let sn = run_signals(st, strategy, risk, k, window_size, now, n);
        assert(sn == sp.push(sn[n - 1]));
        lemma_simulate_prefix(st, risk, k, window_size, sp, sn, now, n - 1);
    }
}

/// A bar that ends with an open position records the equity of cash plus
/// that position valued at the bar's close.
pub proof fn lemma_step_marks_position(st: SimState, risk: RiskManager, k: Kline, signal: Signal, entry_time: int)
    requires
        step(st, risk, k, signal, entry_time) is Some,
        (step(st, risk, k, signal, entry_time)->0).position_side is Some,
    ensures
        ({
            let s2 = step(st, risk, k, signal, entry_time)->0;
            final_capital_of(s2) == s2.balance + (s2.position_size * k.close) / (SCALE as int)
        }),
{
}

/// After a run that no error stopped and that leaves a position open, the
/// final capital is the cash plus that position valued at the last close.
pub proof fn lemma_run_final_capital<S: Strategy>(
    st: SimState,
    strategy: S,
    risk: RiskManager,
    k: Seq<Kline>,
    window_size: int,
    now: int,
    n: int,
)
    requires
        n > 0,
        run_bars(st, strategy, risk, k, window_size, now, n).stopped is None,
        run_bars(st, strategy, risk, k, window_size, now, n).account.position_side is Some,
    ensures
        ({
            let a = run_bars(st, strategy, risk, k, window_size, now, n).account;
            final_capital_of(a) == a.balance + (a.position_size * k[window_size + n - 1].close) / (
            SCALE as int)
        }),
{
    let prev = run_bars(st, strategy, risk, k, window_size, now, n - 1);
    let i = window_size + n - 1;
    let w = bar_window(k, window_size, i);
    assert(prev.stopped is None);
    let signal = prev.strategy.signal_for(w)->Ok_0;
    lemma_step_marks_position(prev.account, risk, k[i], signal, window_entry_time(k, window_size, i, now));
}

/// A buy signal while a position is open changes nothing: there is at most
/// one position at a time.
pub proof fn lemma_no_second_position(st: SimState, risk: RiskManager, k: Kline, entry_time: int)
    requires
        st.position_side is Some,
    ensures
        apply_signal(st, risk, k, Signal::Buy, entry_time) == Some(st),
{
}

} // verus!
