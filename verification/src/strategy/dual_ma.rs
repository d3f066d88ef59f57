//! Dual moving average crossover strategy.
use vstd::prelude::*;

use crate::data::{close_prices, closes, Kline};
use crate::error::QuantError;
use crate::fixed::sum_range;
use crate::indicator::{opt_int, sma_at, TechnicalIndicators};
use crate::strategy::{sized_by_risk, Signal, Strategy, StrategyContext};
use crate::text::{decimal, push_decimal};

verus! {

/// Crossover decision on a closing price series: buy when the fast average
/// crosses above the slow one on the last bar, sell when it crosses below,
/// hold otherwise, while fewer than `slow + 1` closes are known, or when an
/// average is over zero closes (it is undefined then).
pub open spec fn dual_ma_signal(c: Seq<i64>, fast: int, slow: int) -> Signal {
    if fast < 1 || slow < 1 || c.len() < slow + 1 {
        Signal::Hold
    } else {
        let cur = c.len() - 1;
        let prev = c.len() - 2;
        match (sma_at(c, fast, cur), sma_at(c, slow, cur), sma_at(c, fast, prev), sma_at(c, slow, prev)) {
            (Some(cf), Some(cs), Some(pf), Some(ps)) => if pf <= ps && cf > cs {
                Signal::Buy
            } else if pf >= ps && cf < cs {
                Signal::Sell
            } else {
                Signal::Hold
            },
            _ => Signal::Hold,
        }
    }
}

/// A sum over a suffix of `c` is the sum over the same places of `c`.
proof fn lemma_sum_range_skip(c: Seq<i64>, k: int, a: int, b: int)
    requires
        0 <= k <= c.len(),
        0 <= a <= b <= c.len() - k,
    ensures
        sum_range(c.skip(k), a, b) == sum_range(c, a + k, b + k),
    decreases b - a,
{
    if b > a {
        lemma_sum_range_skip(c, k, a, b - 1);
    }
}

/// The crossover signal reads only the last closes: once at least
/// `max(fast, slow) + 1` closes are known, the `w` most recent of them give
/// the same signal for any `w` of at least that many.
pub proof fn lemma_dual_ma_recent_closes(c: Seq<i64>, fast: int, slow: int, w: int)
    requires
        fast >= 1,
        slow >= 1,
        fast + 1 <= w,
        slow + 1 <= w,
        w <= c.len(),
    ensures
        dual_ma_signal(c, fast, slow) == dual_ma_signal(c.skip(c.len() - w), fast, slow),
{
    let k = c.len() - w;
    let d = c.skip(k);
    lemma_sum_range_skip(c, k, w - fast, w);
    lemma_sum_range_skip(c, k, w - slow, w);
    lemma_sum_range_skip(c, k, w - 1 - fast, w - 1);
    lemma_sum_range_skip(c, k, w - 1 - slow, w - 1);
}

/// The crossover signal acts only on a crossing between the previous bar
/// and the last one: a buy needs the fast average at or below the slow one
/// before and above it now, a sell needs it at or above before and below now.
pub proof fn lemma_dual_ma_signal_crosses(c: Seq<i64>, fast: int, slow: int)
    requires
        c.len() >= 2,
    ensures
        ({
            let sig = dual_ma_signal(c, fast, slow);
            let cf = sma_at(c, fast, c.len() - 1);
            let cs = sma_at(c, slow, c.len() - 1);
            let pf = sma_at(c, fast, c.len() - 2);
            let ps = sma_at(c, slow, c.len() - 2);
            &&& sig == Signal::Buy ==> cf is Some && cs is Some && pf is Some && ps is Some && pf->0
                <= ps->0 && cf->0 > cs->0
            &&& sig == Signal::Sell ==> cf is Some && cs is Some && pf is Some && ps is Some && pf->0
                >= ps->0 && cf->0 < cs->0
        }),
{
}

/// Display name `DualMA(fast,slow)`.
pub open spec fn dual_ma_name(fast: nat, slow: nat) -> Seq<char> {
    seq!['D', 'u', 'a', 'l', 'M', 'A', '('] + decimal(fast) + seq![','] + decimal(slow) + seq![')']
}

/// Buys when a fast simple moving average crosses above a slow one and sells
/// when it crosses below.
pub struct DualMaStrategy {
    name: String,
    fast_period: usize,
    slow_period: usize,
    prev_fast_ma: Option<i64>,
    prev_slow_ma: Option<i64>,
}

impl DualMaStrategy {
    /// Number of closes in the fast average.
    pub closed spec fn fast_period_spec(self) -> int {
        self.fast_period as int
    }

    /// Number of closes in the slow average.
    pub closed spec fn slow_period_spec(self) -> int {
        self.slow_period as int
    }

    /// Display name.
    pub closed spec fn name_spec(self) -> Seq<char> {
        self.name@
    }

    pub fn new(fast_period: usize, slow_period: usize) -> (s: Self)
        ensures
            s.fast_period_spec() == fast_period,
            s.slow_period_spec() == slow_period,
            s.name_spec() == dual_ma_name(fast_period as nat, slow_period as nat),
    {
        let mut name = String::from_str("DualMA(");
        proof {
            reveal_strlit("DualMA(");
        }
        push_decimal(&mut name, fast_period as u64);
        crate::text::push_char(&mut name, ',');
        push_decimal(&mut name, slow_period as u64);
        crate::text::push_char(&mut name, ')');
        proof {
            assert(name@ =~= dual_ma_name(fast_period as nat, slow_period as nat));
        }
        DualMaStrategy { name, fast_period, slow_period, prev_fast_ma: None, prev_slow_ma: None }
    }
}

impl Strategy for DualMaStrategy {
    open spec fn signal_for(&self, klines: Seq<Kline>) -> Result<Signal, QuantError> {
        Ok(dual_ma_signal(closes(klines), self.fast_period_spec(), self.slow_period_spec()))
    }

    fn calculate_position_size(&self, context: &StrategyContext) -> (quantity: i64) {
        sized_by_risk(context)
    }

    fn name(&self) -> (n: &str)
        ensures
            n@ == self.name_spec(),
    {
        self.name.as_str()
    }

    fn on_data(&mut self, klines: &[Kline]) -> (r: Result<Signal, QuantError>)
        ensures
            r matches Ok(s) && s == dual_ma_signal(
                closes(klines@),
                old(self).fast_period_spec(),
                old(self).slow_period_spec(),
            ),
            *final(self) == *old(self),
    {
        if self.fast_period == 0 || self.slow_period == 0 || klines.len() <= self.slow_period {
            return Ok(Signal::Hold);
        }
        let closes_v = close_prices(klines);
        let fast_ma = TechnicalIndicators::sma(&closes_v, self.fast_period);
        let slow_ma = TechnicalIndicators::sma(&closes_v, self.slow_period);
        let current_idx = closes_v.len() - 1;
        let prev_idx = closes_v.len() - 2;
        let current_fast = fast_ma[current_idx];
        let current_slow = slow_ma[current_idx];
        let prev_fast = fast_ma[prev_idx];
        let prev_slow = slow_ma[prev_idx];
        proof {
            assert(opt_int(current_fast) == sma_at(closes_v@, self.fast_period as int, current_idx as int));
            assert(opt_int(current_slow) == sma_at(closes_v@, self.slow_period as int, current_idx as int));
            assert(opt_int(prev_fast) == sma_at(closes_v@, self.fast_period as int, prev_idx as int));
            assert(opt_int(prev_slow) == sma_at(closes_v@, self.slow_period as int, prev_idx as int));
        }
        if let (Some(cf), Some(cs), Some(pf), Some(ps)) = (current_fast, current_slow, prev_fast, prev_slow) {
            if pf <= ps && cf > cs {
                return Ok(Signal::Buy);
            }
            if pf >= ps && cf < cs {
                return Ok(Signal::Sell);
            }
        }
        Ok(Signal::Hold)
    }
}

} // verus!
