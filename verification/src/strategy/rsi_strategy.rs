//! Relative strength index strategy.
use vstd::prelude::*;

use crate::data::{close_prices, closes, Kline};
use crate::error::QuantError;
use crate::indicator::{opt_int, rsi_at, TechnicalIndicators};
use crate::strategy::{sized_by_risk, Signal, Strategy, StrategyContext};
use crate::text::{decimal, push_decimal};

verus! {

/// RSI decision on a closing price series: buy when the RSI of the last bar
/// crosses up out of the oversold zone (below `oversold`), sell when it
/// crosses down out of the overbought zone (above `overbought`), hold
/// otherwise, while fewer than `period + 1` closes are known, or over zero
/// moves (an RSI of no moves is undefined).
pub open spec fn rsi_signal(c: Seq<i64>, period: int, overbought: int, oversold: int) -> Signal {
    if period < 1 || c.len() < period + 1 {
        Signal::Hold
    } else {
        match (rsi_at(c, period, c.len() - 1), rsi_at(c, period, c.len() - 2)) {
            (Some(cr), Some(pr)) => if pr < oversold && cr >= oversold {
                Signal::Buy
            } else if pr > overbought && cr <= overbought {
                Signal::Sell
            } else {
                Signal::Hold
            },
            _ => Signal::Hold,
        }
    }
}

/// The RSI signal acts only when a zone boundary is crossed between the
/// previous bar and the last one: a buy needs the previous RSI below the
/// oversold level and the last at or above it, a sell needs the previous RSI
/// above the overbought level and the last at or below it; while both RSIs
/// stay strictly between the two levels the signal is hold.
pub proof fn lemma_rsi_signal_crosses_levels(c: Seq<i64>, period: int, overbought: int, oversold: int)
    requires
        c.len() >= 2,
    ensures
        ({
            let sig = rsi_signal(c, period, overbought, oversold);
            let cur = rsi_at(c, period, c.len() - 1);
            let prev = rsi_at(c, period, c.len() - 2);
            &&& sig == Signal::Buy ==> cur is Some && prev is Some && prev->0 < oversold && cur->0
                >= oversold
            &&& sig == Signal::Sell ==> cur is Some && prev is Some && prev->0 > overbought && cur->0
                <= overbought
            &&& (cur is Some && prev is Some && oversold < prev->0 < overbought && oversold < cur->0
                < overbought) ==> sig == Signal::Hold
            &&& (cur is None || prev is None) ==> sig == Signal::Hold
        }),
{
}

/// Display name `RSI(period)`.
pub open spec fn rsi_name(period: nat) -> Seq<char> {
    seq!['R', 'S', 'I', '('] + decimal(period) + seq![')']
}

/// Trades the relative strength index leaving its oversold and overbought zones.
pub struct RsiStrategy {
    name: String,
    period: usize,
    overbought: i64,
    oversold: i64,
}

impl RsiStrategy {
    /// Number of price moves the RSI averages.
    pub closed spec fn period_spec(self) -> int {
        self.period as int
    }

    /// RSI level above which the market is overbought, fixed point.
    pub closed spec fn overbought_spec(self) -> int {
        self.overbought as int
    }

    /// RSI level below which the market is oversold, fixed point.
    pub closed spec fn oversold_spec(self) -> int {
        self.oversold as int
    }

    /// Display name.
    pub closed spec fn name_spec(self) -> Seq<char> {
        self.name@
    }

    pub fn new(period: usize, overbought: i64, oversold: i64) -> (s: Self)
        ensures
            s.period_spec() == period,
            s.overbought_spec() == overbought,
            s.oversold_spec() == oversold,
            s.name_spec() == rsi_name(period as nat),
    {
        let mut name = String::from_str("RSI(");
        proof {
            reveal_strlit("RSI(");
        }
        push_decimal(&mut name, period as u64);
        crate::text::push_char(&mut name, ')');
        proof {
            assert(name@ =~= rsi_name(period as nat));
        }
        RsiStrategy { name, period, overbought, oversold }
    }

    /// The usual setting: 14 moves, overbought above 70, oversold below 30.
    pub fn default() -> (s: Self)
        ensures
            s.period_spec() == 14,
            s.overbought_spec() == 7_000_000_000,
            s.oversold_spec() == 3_000_000_000,
            s.name_spec() == rsi_name(14),
    {
        Self::new(14, 7_000_000_000, 3_000_000_000)
    }
}

impl Strategy for RsiStrategy {
    open spec fn signal_for(&self, klines: Seq<Kline>) -> Result<Signal, QuantError> {
        Ok(
            rsi_signal(
                closes(klines),
                self.period_spec(),
                self.overbought_spec(),
                self.oversold_spec(),
            ),
        )
    }

    fn calculate_position_size(&self, context: &StrategyContext) -> (quantity: i64) {
        sized_by_risk(context)
    }

    fn name(&self) -> (n: &str)
        ensures
            n@ == self.name_spec(),
    {
        self.name.as_str()
    }

    fn on_data(&mut self, klines: &[Kline]) -> (r: Result<Signal, QuantError>)
        ensures
            r matches Ok(s) && s == rsi_signal(
                closes(klines@),
                old(self).period_spec(),
                old(self).overbought_spec(),
                old(self).oversold_spec(),
            ),
            *final(self) == *old(self),
    {
        if self.period == 0 || klines.len() <= self.period {
            return Ok(Signal::Hold);
        }
        let closes_v = close_prices(klines);
        let rsi_values = TechnicalIndicators::rsi(&closes_v, self.period);
        let current_idx = closes_v.len() - 1;
        let prev_idx = closes_v.len() - 2;
        let current_rsi = rsi_values[current_idx];
        let prev_rsi = rsi_values[prev_idx];
        proof {
            assert(opt_int(current_rsi) == rsi_at(closes_v@, self.period as int, current_idx as int));
            assert(opt_int(prev_rsi) == rsi_at(closes_v@, self.period as int, prev_idx as int));
        }
        if let (Some(cr), Some(pr)) = (current_rsi, prev_rsi) {
            if pr < self.oversold && cr >= self.oversold {
                return Ok(Signal::Buy);
            }
            if pr > self.overbought && cr <= self.overbought {
                return Ok(Signal::Sell);
            }
        }
        Ok(Signal::Hold)
    }
}

} // verus!
