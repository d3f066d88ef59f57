//! Technical indicators over fixed-point price series.
use vstd::prelude::*;

use crate::data::Kline;
use crate::fixed::{
    is_isqrt, isqrt, isqrt_spec, SCALE,
    all_between, fits_i64, floor_div, lemma_div_between, sum_range, HUNDRED,
};

verus! {

/// Namespace of the indicator computations.
pub struct TechnicalIndicators;

/// An optional `i64` read as an optional integer.
pub open spec fn opt_int(o: Option<i64>) -> Option<int> {
    match o {
        Some(v) => Some(v as int),
        None => None,
    }
}

/// Simple moving average at index `i`: the floor of the mean of the `p`
/// values ending at `i`, or `None` before `p` values are available.
pub open spec fn sma_at(s: Seq<i64>, p: int, i: int) -> Option<int> {
    if i + 1 < p {
        None
    } else {
        Some(sum_range(s, i + 1 - p, i + 1) / p)
    }
}

/// One smoothing step of the exponential moving average:
/// `prev + (x - prev) * 2 / (p + 1)`, rounded down.
pub open spec fn ema_step(prev: int, x: int, p: int) -> int {
    prev + (2 * (x - prev)) / (p + 1)
}

/// Exponential moving average at index `i`: seeded with the simple moving
/// average at index `p - 1`, then smoothed with `ema_step`.
pub open spec fn ema_at(s: Seq<i64>, p: int, i: int) -> Option<int>
    decreases i,
{
    if p < 1 || i + 1 < p {
        None
    } else if i + 1 == p {
        sma_at(s, p, i)
    } else {
        match ema_at(s, p, i - 1) {
            Some(prev) => Some(ema_step(prev, s[i] as int, p)),
            None => None,
        }
    }
}

/// The exponential moving average starts at index `p - 1` with the mean of
/// the first `p` prices, rounded down, and then each value moves from the
/// previous one towards the new price by `2 / (p + 1)` of the gap, rounded
/// down; before index `p - 1` it is undefined.
pub proof fn lemma_ema_smooths(s: Seq<i64>, p: int, i: int)
    requires
        p >= 1,
        0 <= i < s.len(),
    ensures
        i < p - 1 ==> ema_at(s, p, i) is None,
        i == p - 1 ==> ema_at(s, p, i) == Some(sum_range(s, 0, p) / p),
        i >= p ==> ema_at(s, p, i - 1) is Some && ema_at(s, p, i) == Some(
            ema_at(s, p, i - 1)->0 + (2 * (s[i] - ema_at(s, p, i - 1)->0)) / (p + 1),
        ),
{
    if i >= p {
        lemma_ema_between(s, p, i - 1, i64::MIN as int, i64::MAX as int);
    }
}

/// A smoothing step stays between the previous value and the new price.
pub proof fn lemma_ema_step_between(prev: int, x: int, p: int, lo: int, hi: int)
    requires
        p >= 1,
        lo <= prev <= hi,
        lo <= x <= hi,
    ensures
        lo <= ema_step(prev, x, p) <= hi,
{
    let d = x - prev;
    if d >= 0 {
        assert((p + 1) * 0 <= 2 * d <= (p + 1) * d) by (nonlinear_arith)
            requires
                d >= 0,
                p >= 1,
        ;
        lemma_div_between(2 * d, p + 1, 0, d);
    } else {
        assert((p + 1) * d <= 2 * d <= (p + 1) * 0) by (nonlinear_arith)
            requires
                d < 0,
                p >= 1,
        ;
        lemma_div_between(2 * d, p + 1, d, 0);
    }
}

/// The simple moving average of values in `[lo, hi]` lies in `[lo, hi]`.
pub proof fn lemma_sma_between(s: Seq<i64>, p: int, i: int, lo: int, hi: int)
    requires
        p >= 1,
        p - 1 <= i < s.len(),
        forall|j: int| 0 <= j < s.len() ==> lo <= #[trigger] s[j] <= hi,
    ensures
        sma_at(s, p, i) is Some,
        lo <= sma_at(s, p, i)->0 <= hi,
{
    crate::fixed::lemma_sum_range_bounds(s, i + 1 - p, i + 1, lo, hi);
    lemma_div_between(sum_range(s, i + 1 - p, i + 1), p, lo, hi);
}

/// The exponential moving average is defined from index `p - 1` on, and it
/// stays within the range of the prices.
pub proof fn lemma_ema_between(s: Seq<i64>, p: int, i: int, lo: int, hi: int)
    requires
        p >= 1,
        0 <= i < s.len(),
        forall|j: int| 0 <= j < s.len() ==> lo <= #[trigger] s[j] <= hi,
    ensures
        ema_at(s, p, i) is Some <==> i + 1 >= p,
        ema_at(s, p, i) is Some ==> lo <= ema_at(s, p, i)->0 <= hi,
    decreases i,
{
    if i + 1 == p {
        lemma_sma_between(s, p, i, lo, hi);
    } else if i + 1 > p {
        lemma_ema_between(s, p, i - 1, lo, hi);
        let prev = ema_at(s, p, i - 1)->0;
        assert(lo <= s[i] <= hi);
        lemma_ema_step_between(prev, s[i] as int, p, lo, hi);
    }
}

/// Gain of the price move from `j` to `j + 1`.
pub open spec fn gain_at(s: Seq<i64>, j: int) -> int {
    if s[j + 1] - s[j] > 0 {
        s[j + 1] - s[j]
    } else {
        0
    }
}

/// Loss of the price move from `j` to `j + 1`.
pub open spec fn loss_at(s: Seq<i64>, j: int) -> int {
    if s[j + 1] - s[j] > 0 {
        0
    } else {
        s[j] - s[j + 1]
    }
}

/// Sum of the gains of the moves `lo..hi`.
pub open spec fn gain_sum(s: Seq<i64>, lo: int, hi: int) -> int
    decreases hi - lo,
{
    if hi <= lo {
        0
    } else {
        gain_sum(s, lo, hi - 1) + gain_at(s, hi - 1)
    }
}

/// Sum of the losses of the moves `lo..hi`.
pub open spec fn loss_sum(s: Seq<i64>, lo: int, hi: int) -> int
    decreases hi - lo,
{
    if hi <= lo {
        0
    } else {
        loss_sum(s, lo, hi - 1) + loss_at(s, hi - 1)
    }
}

/// Average gain and average loss used by the RSI at index `i >= p`:
/// plain averages of the first `p` moves at index `p`, then Wilder smoothing
/// `(avg * (p - 1) + move) / p`, each rounded down.
pub open spec fn rsi_avgs(s: Seq<i64>, p: int, i: int) -> (int, int)
    decreases i,
{
    if p < 1 || i <= p {
        (gain_sum(s, 0, p) / p, loss_sum(s, 0, p) / p)
    } else {
        let prev = rsi_avgs(s, p, i - 1);
        (
            (prev.0 * (p - 1) + gain_at(s, i - 1)) / p,
            (prev.1 * (p - 1) + loss_at(s, i - 1)) / p,
        )
    }
}

/// The RSI of an average gain and an average loss: `100` when there is no
/// loss, otherwise `100 - 100 / (1 + gain / loss)`, that is
/// `100 * gain / (gain + loss)`, in fixed point and rounded down.
pub open spec fn rsi_value(g: int, l: int) -> int {
    if l == 0 {
        HUNDRED as int
    } else {
        (HUNDRED * g) / (g + l)
    }
}

/// Relative strength index at index `i`, defined from index `p` on when the
/// series holds at least `p + 1` prices.
pub open spec fn rsi_at(s: Seq<i64>, p: int, i: int) -> Option<int> {
    if s.len() < p + 1 || i < p {
        None
    } else {
        let a = rsi_avgs(s, p, i);
        Some(rsi_value(a.0, a.1))
    }
}

/// Gains and losses over the moves `lo..hi` read only the prices up to `hi`.
proof fn lemma_move_sums_agree(s: Seq<i64>, t: Seq<i64>, lo: int, hi: int)
    requires
        0 <= lo,
        hi < s.len(),
        hi < t.len(),
        forall|j: int| 0 <= j <= hi ==> #[trigger] t[j] == s[j],
    ensures
        gain_sum(t, lo, hi) == gain_sum(s, lo, hi),
        loss_sum(t, lo, hi) == loss_sum(s, lo, hi),
    decreases hi - lo,
{
    if hi > lo {
        lemma_move_sums_agree(s, t, lo, hi - 1);
        assert(t[hi - 1] == s[hi - 1] && t[hi] == s[hi]);
    }
}

/// The RSI averages at `i` read only the prices up to `i` (and at least up to `p`).
proof fn lemma_rsi_avgs_agree(s: Seq<i64>, t: Seq<i64>, p: int, i: int)
    requires
        p >= 1,
        p <= i,
        i < s.len(),
        i < t.len(),
        forall|j: int| 0 <= j <= i ==> #[trigger] t[j] == s[j],
    ensures
        rsi_avgs(t, p, i) == rsi_avgs(s, p, i),
    decreases i,
{
    if i <= p {
        lemma_move_sums_agree(s, t, 0, p);
    } else {
        lemma_rsi_avgs_agree(s, t, p, i - 1);
        assert(t[i - 1] == s[i - 1] && t[i] == s[i]);
    }
}

/// Prices that never fall have no losses, and prices that always fall have no
/// gains and a loss of at least one unit per move.
proof fn lemma_move_sums_monotone(s: Seq<i64>, lo: int, hi: int)
    requires
        0 <= lo <= hi < s.len(),
    ensures
        (forall|j: int| 0 <= j < hi ==> #[trigger] s[j] <= s[j + 1]) ==> loss_sum(s, lo, hi) == 0,
        (forall|j: int| 0 <= j < hi ==> #[trigger] s[j] > s[j + 1]) ==> gain_sum(s, lo, hi) == 0
            && loss_sum(s, lo, hi) >= hi - lo,
    decreases hi - lo,
{
    if hi > lo {
        lemma_move_sums_monotone(s, lo, hi - 1);
        if forall|j: int| 0 <= j < hi ==> #[trigger] s[j] <= s[j + 1] {
            assert(s[hi - 1] <= s[hi]);
        }
        if forall|j: int| 0 <= j < hi ==> #[trigger] s[j] > s[j + 1] {
            assert(s[hi - 1] > s[hi]);
        }
    }
}

/// The RSI averages of never-falling prices have no loss; those of always
/// falling prices have no gain and a loss of at least one unit.
proof fn lemma_rsi_avgs_monotone(s: Seq<i64>, p: int, i: int)
    requires
        p >= 1,
        p <= i < s.len(),
    ensures
        (forall|j: int| 0 <= j < i ==> #[trigger] s[j] <= s[j + 1]) ==> rsi_avgs(s, p, i).1 == 0,
        (forall|j: int| 0 <= j < i ==> #[trigger] s[j] > s[j + 1]) ==> rsi_avgs(s, p, i).0 == 0
            && rsi_avgs(s, p, i).1 >= 1,
    decreases i,
{
    lemma_move_sums_monotone(s, 0, p);
    if i > p {
        lemma_rsi_avgs_monotone(s, p, i - 1);
        let prev = rsi_avgs(s, p, i - 1);
        if forall|j: int| 0 <= j < i ==> #[trigger] s[j] <= s[j + 1] {
            assert(s[i - 1] <= s[i]);
            assert(forall|j: int| 0 <= j < i - 1 ==> #[trigger] s[j] <= s[j + 1]);
            assert(prev.1 * (p - 1) == 0) by (nonlinear_arith)
                requires
                    prev.1 == 0,
            ;
        }
        if forall|j: int| 0 <= j < i ==> #[trigger] s[j] > s[j + 1] {
            assert(s[i - 1] > s[i]);
            assert(forall|j: int| 0 <= j < i - 1 ==> #[trigger] s[j] > s[j + 1]);
            let l = loss_at(s, i - 1);
            assert(prev.0 * (p - 1) == 0) by (nonlinear_arith)
                requires
                    prev.0 == 0,
            ;
            assert(prev.1 * (p - 1) + l >= p) by (nonlinear_arith)
                requires
                    prev.1 >= 1,
                    l >= 1,
                    p >= 1,
            ;
            assert(prev.1 * (p - 1) + l <= p * (prev.1 * (p - 1) + l)) by (nonlinear_arith)
                requires
                    prev.1 * (p - 1) + l >= 0,
                    p >= 1,
            ;
            crate::fixed::lemma_div_between(prev.1 * (p - 1) + l, p, 1, prev.1 * (p - 1) + l);
            assert(p * 1 <= prev.1 * (p - 1) + l);
        }
    } else {
        if forall|j: int| 0 <= j < i ==> #[trigger] s[j] > s[j + 1] {
            let ls = loss_sum(s, 0, p);
            assert(p * 1 <= ls <= p * ls) by (nonlinear_arith)
                requires
                    ls >= p,
                    p >= 1,
            ;
            crate::fixed::lemma_div_between(ls, p, 1, ls);
        }
    }
}

/// Prices that never fall have an RSI of 100 wherever it is defined, and
/// prices that always fall an RSI of 0.
pub proof fn lemma_rsi_monotone(s: Seq<i64>, p: int, i: int)
    requires
        p >= 1,
        p <= i < s.len(),
    ensures
        (forall|j: int| 0 <= j < i ==> #[trigger] s[j] <= s[j + 1]) ==> rsi_at(s, p, i) == Some(
            HUNDRED as int,
        ),
        (forall|j: int| 0 <= j < i ==> #[trigger] s[j] > s[j + 1]) ==> rsi_at(s, p, i) == Some(0int),
{
    lemma_rsi_avgs_monotone(s, p, i);
    let a = rsi_avgs(s, p, i);
    if forall|j: int| 0 <= j < i ==> #[trigger] s[j] > s[j + 1] {
        assert(HUNDRED * a.0 == 0) by (nonlinear_arith)
            requires
                a.0 == 0,
        ;
    }
}

/// Wilder smoothing: after the first average, each bar moves the average gain
/// from its previous value towards the bar's gain (the rise from the previous
/// price, or zero) by a `1 / p` share of the gap, rounded down, and the
/// average loss likewise towards the bar's loss (the fall, or zero).
pub proof fn lemma_rsi_wilder_step(s: Seq<i64>, p: int, i: int)
    requires
        p >= 1,
        p < i < s.len(),
    ensures
        ({
            let prev = rsi_avgs(s, p, i - 1);
            let now = rsi_avgs(s, p, i);
            let d = s[i] - s[i - 1];
            let g = if d > 0 {
                d
            } else {
                0
            };
            let l = if d > 0 {
                0
            } else {
                -d
            };
            &&& now.0 == prev.0 + (g - prev.0) / p
            &&& now.1 == prev.1 + (l - prev.1) / p
        }),
{
    let prev = rsi_avgs(s, p, i - 1);
    let g = gain_at(s, i - 1);
    let l = loss_at(s, i - 1);
    assert(prev.0 * (p - 1) + g == (g - prev.0) + p * prev.0) by (nonlinear_arith);
    assert(prev.1 * (p - 1) + l == (l - prev.1) + p * prev.1) by (nonlinear_arith);
    assert(((g - prev.0) + p * prev.0) / p == prev.0 + (g - prev.0) / p) by {
        vstd::arithmetic::div_mod::lemma_fundamental_div_mod(g - prev.0, p);
        let q = (g - prev.0) / p;
        let r = (g - prev.0) % p;
        assert((g - prev.0) + p * prev.0 == (prev.0 + q) * p + r) by (nonlinear_arith)
            requires
                g - prev.0 == p * q + r,
        ;
        vstd::arithmetic::div_mod::lemma_fundamental_div_mod_converse(
            (g - prev.0) + p * prev.0,
            p,
            prev.0 + (g - prev.0) / p,
            (g - prev.0) % p,
        );
    }
    assert(((l - prev.1) + p * prev.1) / p == prev.1 + (l - prev.1) / p) by {
        vstd::arithmetic::div_mod::lemma_fundamental_div_mod(l - prev.1, p);
        let q = (l - prev.1) / p;
        let r = (l - prev.1) % p;
        assert((l - prev.1) + p * prev.1 == (prev.1 + q) * p + r) by (nonlinear_arith)
            requires
                l - prev.1 == p * q + r,
        ;
        vstd::arithmetic::div_mod::lemma_fundamental_div_mod_converse(
            (l - prev.1) + p * prev.1,
            p,
            prev.1 + (l - prev.1) / p,
            (l - prev.1) % p,
        );
    }
}

/// The first RSI averages are the plain means of the gains and of the losses
/// of the first `p` moves, rounded down.
pub proof fn lemma_rsi_first_averages(s: Seq<i64>, p: int)
    requires
        p >= 1,
        p < s.len(),
    ensures
        rsi_avgs(s, p, p) == (gain_sum(s, 0, p) / p, loss_sum(s, 0, p) / p),
{
}

/// The RSI of a prefix of a price series is the prefix of its RSI: a value,
/// once computed, never changes as later prices arrive.
pub proof fn lemma_rsi_prefix(s: Seq<i64>, p: int, n: int, i: int)
    requires
        p >= 1,
        0 <= i < n <= s.len(),
    ensures
        rsi_at(s.take(n), p, i) == rsi_at(s, p, i),
{
    if i >= p {
        lemma_rsi_avgs_agree(s, s.take(n), p, i);
    }
}

/// MACD line at index `i`: fast EMA minus slow EMA where both are defined.
pub open spec fn macd_at(s: Seq<i64>, fast: int, slow: int, i: int) -> Option<int> {
    match (ema_at(s, fast, i), ema_at(s, slow, i)) {
        (Some(a), Some(b)) => Some(a - b),
        _ => None,
    }
}

/// First index at which the MACD line is defined.
pub open spec fn macd_start(fast: int, slow: int) -> int {
    if fast >= slow {
        fast - 1
    } else {
        slow - 1
    }
}

/// The defined values of the MACD line, in order.
pub open spec fn macd_values(s: Seq<i64>, fast: int, slow: int) -> Seq<i64> {
    let start = macd_start(fast, slow);
    Seq::new(
        if s.len() > start {
            (s.len() - start) as nat
        } else {
            0
        },
        |k: int| macd_at(s, fast, slow, k + start)->0 as i64,
    )
}

/// Signal line at index `i`: the EMA of the defined MACD values, aligned
/// with the indices at which the MACD line is defined.
pub open spec fn signal_at(s: Seq<i64>, fast: int, slow: int, sig: int, i: int) -> Option<int> {
    if i < macd_start(fast, slow) {
        None
    } else {
        ema_at(macd_values(s, fast, slow), sig, i - macd_start(fast, slow))
    }
}

/// The signal line smooths the MACD line: from one bar after its first value
/// on, each signal value moves from the previous one towards the current MACD
/// value by `2 / (sig + 1)` of the gap, rounded down.
pub proof fn lemma_signal_line_smooths_macd(s: Seq<i64>, fast: int, slow: int, sig: int, i: int)
    requires
        fast >= 1,
        slow >= 1,
        sig >= 1,
        macd_fits(s, fast, slow, sig),
        (if fast >= slow {
            fast - 1
        } else {
            slow - 1
        }) + sig <= i < s.len(),
    ensures
        macd_at(s, fast, slow, i) is Some,
        signal_at(s, fast, slow, sig, i - 1) is Some,
        ({
            let prev = signal_at(s, fast, slow, sig, i - 1)->0;
            let m = macd_at(s, fast, slow, i)->0;
            signal_at(s, fast, slow, sig, i) == Some(prev + (2 * (m - prev)) / (sig + 1))
        }),
{
    let start = macd_start(fast, slow);
    let vals = macd_values(s, fast, slow);
    let j = i - start;
    lemma_ema_between(s, fast, i, i64::MIN as int, i64::MAX as int);
    lemma_ema_between(s, slow, i, i64::MIN as int, i64::MAX as int);
    assert(macd_at(s, fast, slow, i) is Some);
    assert(fits_i64(macd_at(s, fast, slow, i)->0));
    assert(vals[j] == macd_at(s, fast, slow, i)->0);
    lemma_ema_between(vals, sig, j - 1, i64::MIN as int, i64::MAX as int);
}

/// The signal line starts at the first index where `sig` MACD values are
/// known, as their mean rounded down, and is undefined before.
pub proof fn lemma_signal_line_seed(s: Seq<i64>, fast: int, slow: int, sig: int, i: int)
    requires
        fast >= 1,
        slow >= 1,
        sig >= 1,
        0 <= i < s.len(),
    ensures
        ({
            let start = if fast >= slow {
                fast - 1
            } else {
                slow - 1
            };
            &&& i < start + sig - 1 ==> signal_at(s, fast, slow, sig, i) is None
            &&& i == start + sig - 1 ==> signal_at(s, fast, slow, sig, i) == Some(
                sum_range(macd_values(s, fast, slow), 0, sig) / sig,
            )
        }),
{
}

/// Histogram at index `i`: MACD line minus signal line where both are defined.
pub open spec fn histogram_at(s: Seq<i64>, fast: int, slow: int, sig: int, i: int) -> Option<int> {
    match (macd_at(s, fast, slow, i), signal_at(s, fast, slow, sig, i)) {
        (Some(a), Some(b)) => Some(a - b),
        _ => None,
    }
}

/// Every defined value of the MACD line and of its histogram fits an `i64`.
pub open spec fn macd_fits(s: Seq<i64>, fast: int, slow: int, sig: int) -> bool {
    forall|i: int|
        0 <= i < s.len() ==> {
            &&& (#[trigger] macd_at(s, fast, slow, i)) is Some ==> fits_i64(macd_at(s, fast, slow, i)->0)
            &&& histogram_at(s, fast, slow, sig, i) is Some ==> fits_i64(
                histogram_at(s, fast, slow, sig, i)->0,
            )
        }
}

/// Every defined value of the upper and lower Bollinger bands fits an `i64`.
pub open spec fn bands_fit(s: Seq<i64>, p: int, k: int) -> bool {
    forall|i: int|
        0 <= i < s.len() ==> {
            &&& (#[trigger] upper_band_at(s, p, k, i)) is Some ==> fits_i64(upper_band_at(s, p, k, i)->0)
            &&& lower_band_at(s, p, k, i) is Some ==> fits_i64(lower_band_at(s, p, k, i)->0)
        }
}

/// Sum of the squared deviations of `s[lo..hi]` from `m`.
pub open spec fn sq_dev_sum(s: Seq<i64>, lo: int, hi: int, m: int) -> int
    decreases hi - lo,
{
    if hi <= lo {
        0
    } else {
        sq_dev_sum(s, lo, hi - 1, m) + (s[hi - 1] - m) * (s[hi - 1] - m)
    }
}

/// Half width of the Bollinger band at index `i >= p - 1`: `k` times the
/// population standard deviation of the window, where the standard deviation
/// is the integer square root of the variance rounded down.
pub open spec fn band_offset_at(s: Seq<i64>, p: int, k: int, i: int) -> int {
    let m = sma_at(s, p, i)->0;
    let sd = isqrt_spec(sq_dev_sum(s, i + 1 - p, i + 1, m) / p);
    (k * sd) / (SCALE as int)
}

/// Upper Bollinger band at index `i`.
pub open spec fn upper_band_at(s: Seq<i64>, p: int, k: int, i: int) -> Option<int> {
    if i + 1 < p {
        None
    } else {
        Some(sma_at(s, p, i)->0 + band_offset_at(s, p, k, i))
    }
}

/// Lower Bollinger band at index `i`.
pub open spec fn lower_band_at(s: Seq<i64>, p: int, k: int, i: int) -> Option<int> {
    if i + 1 < p {
        None
    } else {
        Some(sma_at(s, p, i)->0 - band_offset_at(s, p, k, i))
    }
}

/// The Bollinger bands lie symmetrically around the middle band, defined
/// exactly where the middle band is.
pub proof fn lemma_bands_symmetric(s: Seq<i64>, p: int, k: int, i: int)
    requires
        p >= 1,
        0 <= i < s.len(),
    ensures
        upper_band_at(s, p, k, i) is Some <==> sma_at(s, p, i) is Some,
        lower_band_at(s, p, k, i) is Some <==> sma_at(s, p, i) is Some,
        sma_at(s, p, i) is Some ==> upper_band_at(s, p, k, i)->0 - sma_at(s, p, i)->0 == sma_at(s, p, i)->0
            - lower_band_at(s, p, k, i)->0,
{
}

/// With a non-negative width, the lower Bollinger band lies at or below the
/// middle band and the upper band at or above it.
pub proof fn lemma_bands_ordered(s: Seq<i64>, p: int, k: int, i: int)
    requires
        p >= 1,
        k >= 0,
        p - 1 <= i,
    ensures
        lower_band_at(s, p, k, i)->0 <= sma_at(s, p, i)->0 <= upper_band_at(s, p, k, i)->0,
{
    let m = sma_at(s, p, i)->0;
    let v = sq_dev_sum(s, i + 1 - p, i + 1, m);
    lemma_sq_dev_sum_nonneg(s, i + 1 - p, i + 1, m);
    vstd::arithmetic::div_mod::lemma_div_pos_is_pos(v, p);
    crate::fixed::lemma_isqrt_exists(v / p);
    let sd = isqrt_spec(v / p);
    assert(k * sd >= 0) by (nonlinear_arith)
        requires
            k >= 0,
            sd >= 0,
    ;
    vstd::arithmetic::div_mod::lemma_div_pos_is_pos(k * sd, SCALE as int);
}

pub(crate) proof fn lemma_sq_dev_sum_nonneg(s: Seq<i64>, lo: int, hi: int, m: int)
    ensures
        sq_dev_sum(s, lo, hi, m) >= 0,
    decreases hi - lo,
{
    if hi > lo {
        lemma_sq_dev_sum_nonneg(s, lo, hi - 1, m);
        let d = s[hi - 1] - m;
        assert(d * d >= 0) by (nonlinear_arith);
    }
}

proof fn lemma_sq_dev_sum_bounds(s: Seq<i64>, lo: int, hi: int, m: int, bound: int)
    requires
        0 <= lo <= hi <= s.len(),
        forall|j: int| lo <= j < hi ==> -bound <= #[trigger] s[j] - m <= bound,
    ensures
        0 <= sq_dev_sum(s, lo, hi, m) <= (hi - lo) * (bound * bound),
    decreases hi - lo,
{
    if hi > lo {
        lemma_sq_dev_sum_bounds(s, lo, hi - 1, m, bound);
        let d = s[hi - 1] - m;
        assert(-bound <= d <= bound);
        assert(0 <= d * d <= bound * bound) by (nonlinear_arith)
            requires
                -bound <= d <= bound,
        ;
        assert((hi - lo) * (bound * bound) == (hi - 1 - lo) * (bound * bound) + bound * bound)
            by (nonlinear_arith);
    } else {
        assert((hi - lo) * (bound * bound) == 0) by (nonlinear_arith)
            requires
                hi - lo == 0,
        ;
    }
}

/// Absolute value.
pub open spec fn abs_int(x: int) -> int {
    if x < 0 {
        -x
    } else {
        x
    }
}

/// True range of kline `i`: its high minus its low, widened to the gaps to
/// the previous close from the second kline on.
pub open spec fn true_range_at(k: Seq<Kline>, i: int) -> int {
    let tr1 = k[i].high - k[i].low;
    if i == 0 {
        tr1
    } else {
        let tr2 = abs_int(k[i].high - k[i - 1].close);
        let tr3 = abs_int(k[i].low - k[i - 1].close);
        let m = if tr1 >= tr2 {
            tr1
        } else {
            tr2
        };
        if m >= tr3 {
            m
        } else {
            tr3
        }
    }
}

/// The true range of a kline after the first is the largest of its own
/// range (high minus low) and the gaps from the previous close to its high
/// and to its low: it is at least each of the three, and equal to one of them.
pub proof fn lemma_true_range_is_largest_move(k: Seq<Kline>, i: int)
    requires
        1 <= i < k.len(),
    ensures
        ({
            let range = k[i].high - k[i].low;
            let up = k[i].high - k[i - 1].close;
            let down = k[i].low - k[i - 1].close;
            let gap_high = if up < 0 {
                -up
            } else {
                up
            };
            let gap_low = if down < 0 {
                -down
            } else {
                down
            };
            let tr = true_range_at(k, i);
            &&& tr >= range
            &&& tr >= gap_high
            &&& tr >= gap_low
            &&& tr == range || tr == gap_high || tr == gap_low
        }),
{
}

/// The true range of the first kline is its high minus its low.
pub proof fn lemma_first_true_range(k: Seq<Kline>)
    requires
        k.len() > 0,
    ensures
        true_range_at(k, 0) == k[0].high - k[0].low,
{
}

/// Every true range of `k` fits an `i64`.
pub open spec fn true_ranges_fit(k: Seq<Kline>) -> bool {
    forall|i: int| 0 <= i < k.len() ==> fits_i64(#[trigger] true_range_at(k, i))
}

/// True ranges of all klines.
pub open spec fn true_ranges(k: Seq<Kline>) -> Seq<i64> {
    Seq::new(k.len(), |i: int| true_range_at(k, i) as i64)
}

/// The RSI of an average gain and an average loss, as `rsi_value` states.
fn rsi_of(ag: u128, al: u128) -> (r: i64)
    requires
        ag <= u64::MAX,
        al <= u64::MAX,
    ensures
        r == rsi_value(ag as int, al as int),
        0 <= r <= HUNDRED,
{
    if al == 0 {
        HUNDRED
    } else {
        let num = (HUNDRED as u128) * ag;
        let den = ag + al;
        proof {
            assert(den * 0 <= num <= den * HUNDRED) by (nonlinear_arith)
                requires
                    num == HUNDRED * ag,
                    den == ag + al,
                    al > 0,
            ;
            lemma_div_between(num as int, den as int, 0, HUNDRED as int);
        }
        (num / den) as i64
    }
}

/// One Wilder smoothing step `(avg * (p - 1) + x) / p`.
fn smooth(avg: u128, x: u64, p: usize) -> (r: u128)
    requires
        p >= 1,
        avg <= u64::MAX,
    ensures
        r == (avg * (p - 1) + x) / (p as int),
        r <= u64::MAX,
{
    let pm = (p - 1) as u128;
    proof {
        assert(avg * pm + x <= (p as int) * u64::MAX) by (nonlinear_arith)
            requires
                avg <= u64::MAX,
                x <= u64::MAX,
                pm == p - 1,
                p >= 1,
        ;
        assert((p as int) * u64::MAX <= u128::MAX) by (nonlinear_arith)
            requires
                p <= u64::MAX,
        ;
    }
    let num = avg * pm + x as u128;
    proof {
        lemma_div_between(num as int, p as int, 0, u64::MAX as int);
    }
    num / (p as u128)
}

/// Floor of the mean squared deviation of `s[lo..hi]` from `m`, for values
/// and `m` within `lim` of zero.
pub(crate) fn window_variance(s: &[i64], lo: usize, hi: usize, m: i64, Ghost(lim): Ghost<int>) -> (v: u128)
    requires
        lo < hi <= s@.len(),
        0 <= lim <= 0x8000_0000_0000_0000int,
        forall|j: int| lo <= j < hi ==> -lim <= #[trigger] s@[j] <= lim,
        -lim <= m <= lim,
    ensures
        v == sq_dev_sum(s@, lo as int, hi as int, m as int) / ((hi - lo) as int),
        v <= (2 * lim) * (2 * lim),
        v <= 0xFFFF_FFFF_FFFF_FFFFint * 0xFFFF_FFFF_FFFF_FFFFint,
{
    let (q, r) = window_sq_dev(s, lo, hi, m, Ghost(lim));
    proof {
        vstd::arithmetic::div_mod::lemma_fundamental_div_mod_converse(
            sq_dev_sum(s@, lo as int, hi as int, m as int),
            (hi - lo) as int,
            q as int,
            r as int,
        );
    }
    q
}

/// The sum of the squared deviations of `s[lo..hi]` from `m`, divided by
/// their number: quotient and remainder, for values and `m` within `lim` of
/// zero.
pub(crate) fn window_sq_dev(s: &[i64], lo: usize, hi: usize, m: i64, Ghost(lim): Ghost<int>) -> (res: (
    u128,
    u128,
))
    requires
        lo < hi <= s@.len(),
        0 <= lim <= 0x8000_0000_0000_0000int,
        forall|j: int| lo <= j < hi ==> -lim <= #[trigger] s@[j] <= lim,
        -lim <= m <= lim,
    ensures
        res.0 * (hi - lo) + res.1 == sq_dev_sum(s@, lo as int, hi as int, m as int),
        res.1 < hi - lo,
        res.0 <= (2 * lim) * (2 * lim),
        res.0 <= 0xFFFF_FFFF_FFFF_FFFFint * 0xFFFF_FFFF_FFFF_FFFFint,
{
    let ghost bound: int = if 2 * lim <= 0xFFFF_FFFF_FFFF_FFFFint {
        2 * lim
    } else {
        0xFFFF_FFFF_FFFF_FFFFint
    };
    let ghost maxsq: int = bound * bound;
    let p = (hi - lo) as u128;
    let mut q: u128 = 0;
    let mut r: u128 = 0;
    let mut j = lo;
    proof {
        assert(0 <= maxsq <= 0xFFFF_FFFF_FFFF_FFFFint * 0xFFFF_FFFF_FFFF_FFFFint) by (nonlinear_arith)
            requires
                0 <= bound <= 0xFFFF_FFFF_FFFF_FFFFint,
                maxsq == bound * bound,
        ;
        assert(maxsq <= (2 * lim) * (2 * lim)) by (nonlinear_arith)
            requires
                0 <= bound <= 2 * lim,
                maxsq == bound * bound,
        ;
    }
    while j < hi
        invariant
            lo <= j <= hi <= s@.len(),
            p == hi - lo,
            forall|t: int| lo <= t < hi ==> -lim <= #[trigger] s@[t] <= lim,
            -lim <= m <= lim,
            bound == if 2 * lim <= 0xFFFF_FFFF_FFFF_FFFFint {
                2 * lim
            } else {
                0xFFFF_FFFF_FFFF_FFFFint
            },
            0 <= lim <= 0x8000_0000_0000_0000int,
            maxsq == bound * bound,
            0 <= maxsq <= 0xFFFF_FFFF_FFFF_FFFFint * 0xFFFF_FFFF_FFFF_FFFFint,
            maxsq <= (2 * lim) * (2 * lim),
            q * p + r == sq_dev_sum(s@, lo as int, j as int, m as int),
            r < p,
            q <= maxsq,
        decreases hi - j,
    {
        let d = s[j] as i128 - m as i128;
        proof {
            assert(-lim <= s@[j as int] <= lim);
            assert(0 <= d * d <= maxsq) by (nonlinear_arith)
                requires
                    -bound <= d <= bound,
                    maxsq == bound * bound,
            ;
        }
        let ad: u128 = if d >= 0 {
            d as u128
        } else {
            (-d) as u128
        };
        proof {
            assert(ad * ad == d * d) by (nonlinear_arith)
                requires
                    ad == d || ad == -d,
            ;
        }
        let sq = ad * ad;
        proof {
            assert forall|t: int| lo <= t < j + 1 implies -bound <= #[trigger] s@[t] - m <= bound by {
                assert(-lim <= s@[t] <= lim);
            }
            lemma_sq_dev_sum_bounds(s@, lo as int, j + 1, m as int, bound);
            vstd::arithmetic::div_mod::lemma_fundamental_div_mod(sq as int, p as int);
        }
        let sq_q = sq / p;
        let sq_r = sq % p;
        let ghost total = sq_dev_sum(s@, lo as int, j + 1, m as int);
        proof {
            assert(total == sq_dev_sum(s@, lo as int, j as int, m as int) + d * d);
            assert(sq == p * sq_q + sq_r);
            assert(total == q * p + r + sq_q * p + sq_r) by (nonlinear_arith)
                requires
                    total == q * p + r + sq,
                    sq == p * sq_q + sq_r,
            ;
            assert((q + sq_q) * p + r + sq_r == total) by (nonlinear_arith)
                requires
                    total == q * p + r + sq_q * p + sq_r,
            ;
            assert(total <= p * maxsq) by (nonlinear_arith)
                requires
                    total <= (j + 1 - lo) * maxsq,
                    j + 1 - lo <= p,
                    maxsq >= 0,
            ;
            assert(q + sq_q <= maxsq) by (nonlinear_arith)
                requires
                    (q + sq_q) * p + r + sq_r == total,
                    total <= p * maxsq,
                    p > 0,
                    r >= 0,
                    sq_r >= 0,
            ;
        }
        q = q + sq_q;
        r = r + sq_r;
        if r >= p {
            proof {
                assert(q < maxsq) by (nonlinear_arith)
                    requires
                        q * p + r == total,
                        total <= p * maxsq,
                        r >= p,
                        p > 0,
                ;
                assert((q + 1) * p + (r - p) == q * p + r) by (nonlinear_arith);
            }
            q = q + 1;
            r = r - p;
        }
        j = j + 1;
    }
    (q, r)
}

/// Sum of `s[lo..hi]`, formed without overflow.
pub fn window_sum(s: &[i64], lo: usize, hi: usize) -> (sum: i128)
    requires
        lo <= hi <= s@.len(),
    ensures
        sum == sum_range(s@, lo as int, hi as int),
        (hi - lo) * i64::MIN <= sum <= (hi - lo) * i64::MAX,
{
    let mut acc: i128 = 0;
    let mut j = lo;
    while j < hi
        invariant
            lo <= j <= hi <= s@.len(),
            acc == sum_range(s@, lo as int, j as int),
            (j - lo) * i64::MIN <= acc <= (j - lo) * i64::MAX,
        decreases hi - j,
    {
        let x = s[j];
        proof {
            let k = (j + 1 - lo) as int;
            assert(k * i64::MIN <= acc + x <= k * i64::MAX) by (nonlinear_arith)
                requires
                    (k - 1) * i64::MIN <= acc <= (k - 1) * i64::MAX,
                    i64::MIN <= x <= i64::MAX,
            ;
            assert(k <= usize::MAX);
            assert(i128::MIN < k * i64::MIN && k * i64::MAX < i128::MAX) by (nonlinear_arith)
                requires
                    1 <= k < 0x1_0000_0000_0000_0000int,
            ;
        }
        acc = acc + x as i128;
        j = j + 1;
    }
    acc
}

/// The floor of the mean of `s[lo..hi]`, an `i64`.
pub(crate) fn window_mean(s: &[i64], lo: usize, hi: usize) -> (m: i64)
    requires
        lo < hi <= s@.len(),
    ensures
        m == sum_range(s@, lo as int, hi as int) / ((hi - lo) as int),
{
    let sum = window_sum(s, lo, hi);
    let k = (hi - lo) as i128;
    proof {
        assert(sum > i128::MIN) by (nonlinear_arith)
            requires
                (hi - lo) * i64::MIN <= sum,
                1 <= hi - lo < 0x1_0000_0000_0000_0000int,
        ;
        lemma_div_between(sum as int, k as int, i64::MIN as int, i64::MAX as int);
    }
    floor_div(sum, k) as i64
}

impl TechnicalIndicators {
    /// Simple moving average of `prices` over `period` values.
    pub fn sma(prices: &[i64], period: usize) -> (result: Vec<Option<i64>>)
        requires
            period >= 1,
        ensures
            result@.len() == prices@.len(),
            forall|i: int|
                0 <= i < prices@.len() ==> opt_int(#[trigger] result@[i]) == sma_at(
                    prices@,
                    period as int,
                    i,
                ),
    {
        let mut result: Vec<Option<i64>> = Vec::with_capacity(prices.len());
        let n = prices.len();
        for i in 0..n
            invariant
                n == prices@.len(),
                period >= 1,
                result@.len() == i,
                forall|k: int|
                    0 <= k < i ==> opt_int(#[trigger] result@[k]) == sma_at(
                        prices@,
                        period as int,
                        k,
                    ),
        {
            if i < period - 1 {
                result.push(None);
            } else {
                let m = window_mean(prices, i + 1 - period, i + 1);
                result.push(Some(m));
            }
        }
        result
    }

    /// Exponential moving average of `prices` with smoothing `2 / (period + 1)`.
    pub fn ema(prices: &[i64], period: usize) -> (result: Vec<Option<i64>>)
        requires
            period >= 1,
        ensures
            result@.len() == prices@.len(),
            forall|i: int|
                0 <= i < prices@.len() ==> opt_int(#[trigger] result@[i]) == ema_at(
                    prices@,
                    period as int,
                    i,
                ),
    {
        let n = prices.len();
        let mut result: Vec<Option<i64>> = Vec::with_capacity(n);
        let sma = Self::sma(prices, period);
        let mut prev_ema: Option<i64> = None;
        for i in 0..n
            invariant
                n == prices@.len(),
                period >= 1,
                sma@.len() == n,
                forall|k: int|
                    0 <= k < n ==> opt_int(#[trigger] sma@[k]) == sma_at(prices@, period as int, k),
                result@.len() == i,
                forall|k: int|
                    0 <= k < i ==> opt_int(#[trigger] result@[k]) == ema_at(
                        prices@,
                        period as int,
                        k,
                    ),
                i >= period ==> opt_int(prev_ema) == ema_at(prices@, period as int, i - 1),
        {
            proof {
                lemma_ema_between(prices@, period as int, i as int, i64::MIN as int, i64::MAX as int);
            }
            if i < period - 1 {
                result.push(None);
            } else if i == period - 1 {
                if let Some(sma_val) = sma[i] {
                    result.push(Some(sma_val));
                    prev_ema = Some(sma_val);
                } else {
                    result.push(None);
                }
            } else {
                if let Some(prev) = prev_ema {
                    let d = prices[i] as i128 - prev as i128;
                    let step = floor_div(2 * d, period as i128 + 1);
                    let e = (prev as i128 + step) as i64;
                    result.push(Some(e));
                    prev_ema = Some(e);
                } else {
                    result.push(None);
                }
            }
        }
        result
    }

    /// Relative strength index of `prices` over `period` moves (Wilder).
    pub fn rsi(prices: &[i64], period: usize) -> (result: Vec<Option<i64>>)
        requires
            period >= 1,
        ensures
            result@.len() == prices@.len(),
            forall|i: int|
                0 <= i < prices@.len() ==> opt_int(#[trigger] result@[i]) == rsi_at(
                    prices@,
                    period as int,
                    i,
                ),
            forall|i: int|
                0 <= i < prices@.len() && (#[trigger] result@[i]) is Some ==> 0 <= result@[i]->0
                    <= HUNDRED,
    {
        let n = prices.len();
        let mut result: Vec<Option<i64>> = Vec::with_capacity(n);
        if n <= period {
            for i in 0..n
                invariant
                    n == prices@.len(),
                    n <= period,
                    result@.len() == i,
                    forall|k: int| 0 <= k < i ==> (#[trigger] result@[k]) is None,
            {
                result.push(None);
            }
            return result;
        }
        let mut gains: Vec<u64> = Vec::new();
        let mut losses: Vec<u64> = Vec::new();
        for i in 1..n
            invariant
                n == prices@.len(),
                gains@.len() == i - 1,
                losses@.len() == i - 1,
                forall|j: int| 0 <= j < i - 1 ==> #[trigger] gains@[j] == gain_at(prices@, j),
                forall|j: int| 0 <= j < i - 1 ==> #[trigger] losses@[j] == loss_at(prices@, j),
        {
            let change = prices[i] as i128 - prices[i - 1] as i128;
            if change > 0 {
                gains.push(change as u64);
                losses.push(0);
            } else {
                gains.push(0);
                losses.push((-change) as u64);
            }
        }
        let mut avg_gain: u128 = 0;
        let mut avg_loss: u128 = 0;
        for i in 0..n
            invariant
                n == prices@.len(),
                period >= 1,
                n > period,
                gains@.len() == n - 1,
                losses@.len() == n - 1,
                forall|j: int| 0 <= j < n - 1 ==> #[trigger] gains@[j] == gain_at(prices@, j),
                forall|j: int| 0 <= j < n - 1 ==> #[trigger] losses@[j] == loss_at(prices@, j),
                result@.len() == i,
                forall|k: int|
                    0 <= k < i ==> opt_int(#[trigger] result@[k]) == rsi_at(
                        prices@,
                        period as int,
                        k,
                    ),
                forall|k: int|
                    0 <= k < i && (#[trigger] result@[k]) is Some ==> 0 <= result@[k]->0
                        <= HUNDRED,
                i > period ==> avg_gain == rsi_avgs(prices@, period as int, i - 1).0,
                i > period ==> avg_loss == rsi_avgs(prices@, period as int, i - 1).1,
                avg_gain <= u64::MAX,
                avg_loss <= u64::MAX,
        {
            if i < period {
                result.push(None);
            } else if i == period {
                let mut gain_sum_v: u128 = 0;
                let mut loss_sum_v: u128 = 0;
                for j in 0..period
                    invariant
                        period < n,
                        n == prices@.len(),
                        gains@.len() == n - 1,
                        losses@.len() == n - 1,
                        forall|q: int| 0 <= q < n - 1 ==> #[trigger] gains@[q] == gain_at(prices@, q),
                        forall|q: int| 0 <= q < n - 1 ==> #[trigger] losses@[q] == loss_at(prices@, q),
                        gain_sum_v == gain_sum(prices@, 0, j as int),
                        loss_sum_v == loss_sum(prices@, 0, j as int),
                        gain_sum_v <= j * u64::MAX,
                        loss_sum_v <= j * u64::MAX,
                {
                    proof {
                        assert((j + 1) * u64::MAX <= u128::MAX) by (nonlinear_arith)
                            requires
                                j < u64::MAX,
                        ;
                        assert((j + 1) * u64::MAX == j * u64::MAX + u64::MAX) by (nonlinear_arith);
                    }
                    gain_sum_v = gain_sum_v + gains[j] as u128;
                    loss_sum_v = loss_sum_v + losses[j] as u128;
                }
                proof {
                    lemma_div_between(gain_sum_v as int, period as int, 0, u64::MAX as int);
                    lemma_div_between(loss_sum_v as int, period as int, 0, u64::MAX as int);
                }
                avg_gain = gain_sum_v / (period as u128);
                avg_loss = loss_sum_v / (period as u128);
                let r = rsi_of(avg_gain, avg_loss);
                result.push(Some(r));
            } else {
                avg_gain = smooth(avg_gain, gains[i - 1], period);
                avg_loss = smooth(avg_loss, losses[i - 1], period);
                let r = rsi_of(avg_gain, avg_loss);
                result.push(Some(r));
            }
        }
        result
    }

    /// MACD line, signal line and histogram of `prices`, for prices whose
    /// MACD and histogram values fit an `i64`.
    pub fn macd(prices: &[i64], fast_period: usize, slow_period: usize, signal_period: usize) -> (res: (
        Vec<Option<i64>>,
        Vec<Option<i64>>,
        Vec<Option<i64>>,
    ))
        requires
            fast_period >= 1,
            slow_period >= 1,
            signal_period >= 1,
            macd_fits(prices@, fast_period as int, slow_period as int, signal_period as int),
        ensures
            res.0@.len() == prices@.len(),
            res.1@.len() == prices@.len(),
            res.2@.len() == prices@.len(),
            forall|i: int|
                0 <= i < prices@.len() ==> opt_int(#[trigger] res.0@[i]) == macd_at(
                    prices@,
                    fast_period as int,
                    slow_period as int,
                    i,
                ),
            forall|i: int|
                0 <= i < prices@.len() ==> opt_int(#[trigger] res.1@[i]) == signal_at(
                    prices@,
                    fast_period as int,
                    slow_period as int,
                    signal_period as int,
                    i,
                ),
            forall|i: int|
                0 <= i < prices@.len() ==> opt_int(#[trigger] res.2@[i]) == histogram_at(
                    prices@,
                    fast_period as int,
                    slow_period as int,
                    signal_period as int,
                    i,
                ),
    {
        let n = prices.len();
        let ghost s = prices@;
        let ghost f = fast_period as int;
        let ghost sl = slow_period as int;
        let ghost start = macd_start(f, sl);
        let ghost lim = 0x8000_0000_0000_0000int;
        let fast_ema = Self::ema(prices, fast_period);
        let slow_ema = Self::ema(prices, slow_period);
        let mut macd_line: Vec<Option<i64>> = Vec::with_capacity(n);
        for i in 0..n
            invariant
                n == s.len(),
                lim == 0x8000_0000_0000_0000int,
                s == prices@,
                f == fast_period,
                sl == slow_period,
                fast_period >= 1,
                slow_period >= 1,
                macd_fits(s, f, sl, signal_period as int),
                fast_ema@.len() == n,
                slow_ema@.len() == n,
                forall|k: int| 0 <= k < n ==> opt_int(#[trigger] fast_ema@[k]) == ema_at(s, f, k),
                forall|k: int| 0 <= k < n ==> opt_int(#[trigger] slow_ema@[k]) == ema_at(s, sl, k),
                macd_line@.len() == i,
                forall|k: int| 0 <= k < i ==> opt_int(#[trigger] macd_line@[k]) == macd_at(s, f, sl, k),
                forall|k: int|
                    0 <= k < i && (#[trigger] macd_line@[k]) is Some ==> -2 * lim <= macd_line@[k]->0
                        <= 2 * lim,
        {
            proof {
                lemma_ema_between(s, f, i as int, -lim, lim);
                lemma_ema_between(s, sl, i as int, -lim, lim);
                assert(0 <= i < s.len());
                assert(macd_at(s, f, sl, i as int) is Some ==> fits_i64(macd_at(s, f, sl, i as int)->0));
            }
            if let (Some(fv), Some(sv)) = (fast_ema[i], slow_ema[i]) {
                macd_line.push(Some(fv - sv));
            } else {
                macd_line.push(None);
            }
        }
        proof {
            assert forall|k: int| 0 <= k < n implies (#[trigger] macd_line@[k] is Some <==> k >= start) by {
                lemma_ema_between(s, f, k, -lim, lim);
                lemma_ema_between(s, sl, k, -lim, lim);
            }
        }
        let mut macd_vals: Vec<i64> = Vec::new();
        for i in 0..n
            invariant
                n == s.len(),
                lim == 0x8000_0000_0000_0000int,
                start == macd_start(f, sl),
                start >= 0,
                macd_line@.len() == n,
                forall|k: int| 0 <= k < n ==> opt_int(#[trigger] macd_line@[k]) == macd_at(s, f, sl, k),
                forall|k: int| 0 <= k < n ==> (#[trigger] macd_line@[k] is Some <==> k >= start),
                forall|k: int|
                    0 <= k < n && (#[trigger] macd_line@[k]) is Some ==> -2 * lim <= macd_line@[k]->0
                        <= 2 * lim,
                macd_vals@.len() == if i > start {
                    i - start
                } else {
                    0
                },
                forall|k: int|
                    0 <= k < macd_vals@.len() ==> #[trigger] macd_vals@[k] == macd_line@[k + start]->0,
        {
            if let Some(v) = macd_line[i] {
                macd_vals.push(v);
            }
        }
        let ghost vals = macd_values(s, f, sl);
        proof {
            assert(macd_vals@ =~= vals);
            assert forall|k: int| 0 <= k < vals.len() implies -2 * lim <= #[trigger] vals[k] <= 2 * lim by {
                assert(macd_line@[k + start] is Some);
            }
        }
        let signal_ema = Self::ema(&macd_vals, signal_period);
        let mut signal_line: Vec<Option<i64>> = Vec::with_capacity(n);
        let mut signal_idx: usize = 0;
        for i in 0..n
            invariant
                n == s.len(),
                start == macd_start(f, sl),
                start >= 0,
                vals == macd_values(s, f, sl),
                vals.len() == if n > start {
                    n - start
                } else {
                    0
                },
                macd_line@.len() == n,
                forall|k: int| 0 <= k < n ==> (#[trigger] macd_line@[k] is Some <==> k >= start),
                signal_ema@.len() == vals.len(),
                forall|k: int|
                    0 <= k < vals.len() ==> opt_int(#[trigger] signal_ema@[k]) == ema_at(
                        vals,
                        signal_period as int,
                        k,
                    ),
                signal_idx == if i > start {
                    i - start
                } else {
                    0
                },
                signal_line@.len() == i,
                forall|k: int|
                    0 <= k < i ==> opt_int(#[trigger] signal_line@[k]) == signal_at(
                        s,
                        f,
                        sl,
                        signal_period as int,
                        k,
                    ),
        {
            if macd_line[i].is_some() {
                if signal_idx < signal_ema.len() {
                    signal_line.push(signal_ema[signal_idx]);
                    signal_idx += 1;
                } else {
                    signal_line.push(None);
                }
            } else {
                signal_line.push(None);
            }
        }
        let mut histogram: Vec<Option<i64>> = Vec::with_capacity(n);
        for i in 0..n
            invariant
                n == s.len(),
                lim == 0x8000_0000_0000_0000int,
                start == macd_start(f, sl),
                vals == macd_values(s, f, sl),
                forall|k: int| 0 <= k < vals.len() ==> -2 * lim <= #[trigger] vals[k] <= 2 * lim,
                signal_period >= 1,
                macd_fits(s, f, sl, signal_period as int),
                macd_line@.len() == n,
                forall|k: int| 0 <= k < n ==> opt_int(#[trigger] macd_line@[k]) == macd_at(s, f, sl, k),
                forall|k: int|
                    0 <= k < n && (#[trigger] macd_line@[k]) is Some ==> -2 * lim <= macd_line@[k]->0
                        <= 2 * lim,
                signal_line@.len() == n,
                forall|k: int|
                    0 <= k < n ==> opt_int(#[trigger] signal_line@[k]) == signal_at(
                        s,
                        f,
                        sl,
                        signal_period as int,
                        k,
                    ),
                histogram@.len() == i,
                forall|k: int|
                    0 <= k < i ==> opt_int(#[trigger] histogram@[k]) == histogram_at(
                        s,
                        f,
                        sl,
                        signal_period as int,
                        k,
                    ),
        {
            if let (Some(m), Some(sg)) = (macd_line[i], signal_line[i]) {
                proof {
                    assert(i >= start);
                    assert(histogram_at(s, f, sl, signal_period as int, i as int) is Some ==> fits_i64(
                        histogram_at(s, f, sl, signal_period as int, i as int)->0,
                    ));
                }
                histogram.push(Some(m - sg));
            } else {
                histogram.push(None);
            }
        }
        (macd_line, signal_line, histogram)
    }

    /// Bollinger bands `(upper, middle, lower)` of `prices` over `period`
    /// values, `std_dev` standard deviations wide on each side, for prices
    /// whose band values fit an `i64`.
    pub fn bollinger_bands(prices: &[i64], period: usize, std_dev: i64) -> (res: (
        Vec<Option<i64>>,
        Vec<Option<i64>>,
        Vec<Option<i64>>,
    ))
        requires
            period >= 1,
            bands_fit(prices@, period as int, std_dev as int),
        ensures
            res.0@.len() == prices@.len(),
            res.1@.len() == prices@.len(),
            res.2@.len() == prices@.len(),
            forall|i: int|
                0 <= i < prices@.len() ==> opt_int(#[trigger] res.0@[i]) == upper_band_at(
                    prices@,
                    period as int,
                    std_dev as int,
                    i,
                ),
            forall|i: int|
                0 <= i < prices@.len() ==> opt_int(#[trigger] res.1@[i]) == sma_at(
                    prices@,
                    period as int,
                    i,
                ),
            forall|i: int|
                0 <= i < prices@.len() ==> opt_int(#[trigger] res.2@[i]) == lower_band_at(
                    prices@,
                    period as int,
                    std_dev as int,
                    i,
                ),
    {
        let n = prices.len();
        let sma = Self::sma(prices, period);
        let mut upper: Vec<Option<i64>> = Vec::with_capacity(n);
        let mut lower: Vec<Option<i64>> = Vec::with_capacity(n);
        for i in 0..n
            invariant
                n == prices@.len(),
                period >= 1,
                bands_fit(prices@, period as int, std_dev as int),
                upper@.len() == i,
                lower@.len() == i,
                forall|k: int|
                    0 <= k < i ==> opt_int(#[trigger] upper@[k]) == upper_band_at(
                        prices@,
                        period as int,
                        std_dev as int,
                        k,
                    ),
                forall|k: int|
                    0 <= k < i ==> opt_int(#[trigger] lower@[k]) == lower_band_at(
                        prices@,
                        period as int,
                        std_dev as int,
                        k,
                    ),
        {
            if i < period - 1 {
                upper.push(None);
                lower.push(None);
            } else {
                let lo = i + 1 - period;
                let mean = window_mean(prices, lo, i + 1);
                let ghost lim = 0x8000_0000_0000_0000int;
                proof {
                    lemma_sma_between(prices@, period as int, i as int, -lim, lim);
                }
                let variance = window_variance(prices, lo, i + 1, mean, Ghost(lim));
                let sd = isqrt(variance);
                proof {
                    assert(sd <= 0xFFFF_FFFF_FFFF_FFFFu128) by (nonlinear_arith)
                        requires
                            sd * sd <= variance,
                            variance <= 0xFFFF_FFFF_FFFF_FFFFint * 0xFFFF_FFFF_FFFF_FFFFint,
                    ;
                    assert(-lim * 0xFFFF_FFFF_FFFF_FFFFint <= std_dev * sd <= lim * 0xFFFF_FFFF_FFFF_FFFFint)
                        by (nonlinear_arith)
                        requires
                            -lim <= std_dev <= lim,
                            0 <= sd <= 0xFFFF_FFFF_FFFF_FFFFint,
                    ;
                }
                let width = std_dev as i128 * sd as i128;
                let offset = floor_div(width, SCALE as i128);
                proof {
                    lemma_div_between(
                        width as int,
                        SCALE as int,
                        -lim * 0xFFFF_FFFF_FFFF_FFFFint,
                        lim * 0xFFFF_FFFF_FFFF_FFFFint,
                    );
                    assert(0 <= i < prices@.len());
                    assert(upper_band_at(prices@, period as int, std_dev as int, i as int) is Some);
                    assert(fits_i64(upper_band_at(prices@, period as int, std_dev as int, i as int)->0));
                    assert(fits_i64(lower_band_at(prices@, period as int, std_dev as int, i as int)->0));
                }
                upper.push(Some((mean as i128 + offset) as i64));
                lower.push(Some((mean as i128 - offset) as i64));
            }
        }
        (upper, sma, lower)
    }

    /// Average true range of `klines` over `period` klines, for klines whose
    /// true ranges fit an `i64`.
    pub fn atr(klines: &[Kline], period: usize) -> (result: Vec<Option<i64>>)
        requires
            period >= 1,
            true_ranges_fit(klines@),
        ensures
            result@.len() == klines@.len(),
            forall|i: int|
                0 <= i < klines@.len() ==> opt_int(#[trigger] result@[i]) == sma_at(
                    true_ranges(klines@),
                    period as int,
                    i,
                ),
    {
        let n = klines.len();
        let mut tr_values: Vec<i64> = Vec::with_capacity(n);
        for i in 0..n
            invariant
                n == klines@.len(),
                true_ranges_fit(klines@),
                tr_values@.len() == i,
                forall|k: int| 0 <= k < i ==> #[trigger] tr_values@[k] == true_range_at(klines@, k),
        {
            let h = klines[i].high as i128;
            let l = klines[i].low as i128;
            let tr1 = h - l;
            let tr = if i == 0 {
                tr1
            } else {
                let pc = klines[i - 1].close as i128;
                let tr2 = if h - pc < 0 {
                    pc - h
                } else {
                    h - pc
                };
                let tr3 = if l - pc < 0 {
                    pc - l
                } else {
                    l - pc
                };
                let m = if tr1 >= tr2 {
                    tr1
                } else {
                    tr2
                };
                if m >= tr3 {
                    m
                } else {
                    tr3
                }
            };
            proof {
                assert(tr == true_range_at(klines@, i as int));
                assert(fits_i64(true_range_at(klines@, i as int)));
            }
            tr_values.push(tr as i64);
        }
        proof {
            assert(tr_values@ =~= true_ranges(klines@));
        }
        Self::sma(&tr_values, period)
    }

    /// Simple moving average of trading volumes.
    pub fn volume_sma(volumes: &[i64], period: usize) -> (result: Vec<Option<i64>>)
        requires
            period >= 1,
        ensures
            result@.len() == volumes@.len(),
            forall|i: int|
                0 <= i < volumes@.len() ==> opt_int(#[trigger] result@[i]) == sma_at(
                    volumes@,
                    period as int,
                    i,
                ),
    {
        Self::sma(volumes, period)
    }
}

} // verus!
