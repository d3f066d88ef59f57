//! Position sizing and stop-loss / take-profit rules.
use vstd::prelude::*;

use crate::data::Side;
use crate::fixed::{fits_i64, floor_div, HUNDRED};

verus! {

/// Risk limits of a trading session: the largest position value, and the
/// loss and profit, in percent of the entry price, at which a position is closed.
pub struct RiskManager {
    max_position_size: i64,
    stop_loss_pct: i64,
    take_profit_pct: i64,
}

/// `num / den * 100 >= pct`, where `pct` is a fixed-point percentage, decided
/// exactly. A zero `den` follows the floating-point reading of the quotient:
/// a positive `num` gives an infinite percentage, any other `num` none.
pub open spec fn pct_at_least(num: int, den: int, pct: int) -> bool {
    if den > 0 {
        num * HUNDRED >= pct * den
    } else if den < 0 {
        num * HUNDRED <= pct * den
    } else {
        num > 0
    }
}

/// Ceiling of `a / b` for a positive `b`.
pub open spec fn ceil_div(a: int, b: int) -> int {
    -((-a) / b)
}

/// Offset of `pct` percent of `entry`, rounded up.
pub open spec fn pct_offset(entry: int, pct: int) -> int {
    ceil_div(entry * pct, HUNDRED as int)
}

/// Position value `quantity * price` against the largest position value.
pub open spec fn position_size_ok(max_position_size: int, quantity: int, price: int) -> bool {
    quantity * price <= max_position_size * crate::fixed::SCALE
}

/// Loss of a position at `current`, in percent of `entry`, reaches `pct`.
pub open spec fn loss_reaches(entry: int, current: int, side: Side, pct: int) -> bool {
    match side {
        Side::Buy => pct_at_least(entry - current, entry, pct),
        Side::Sell => pct_at_least(current - entry, entry, pct),
    }
}

/// Profit of a position at `current`, in percent of `entry`, reaches `pct`.
pub open spec fn profit_reaches(entry: int, current: int, side: Side, pct: int) -> bool {
    match side {
        Side::Buy => pct_at_least(current - entry, entry, pct),
        Side::Sell => pct_at_least(entry - current, entry, pct),
    }
}

/// Stop-loss price: `pct` percent below the entry for a long position, above
/// it for a short one; the distance to the entry is rounded up.
pub open spec fn stop_loss_price(entry: int, side: Side, pct: int) -> int {
    match side {
        Side::Buy => entry - pct_offset(entry, pct),
        Side::Sell => entry + pct_offset(entry, pct),
    }
}

/// Take-profit price: `pct` percent above the entry for a long position,
/// below it for a short one; the distance to the entry is rounded up.
pub open spec fn take_profit_price(entry: int, side: Side, pct: int) -> int {
    match side {
        Side::Buy => entry + pct_offset(entry, pct),
        Side::Sell => entry - pct_offset(entry, pct),
    }
}

/// Quantity that risks `risk_pct` of `balance` between `entry_price` and
/// `stop_loss_price`, rounded down; `None` when the two prices are equal
/// (no finite quantity) or when the quantity does not fit an `i64`.
pub open spec fn risk_position_size(balance: int, risk_pct: int, entry_price: int, stop_loss_price: int) -> Option<int> {
    let price_risk = if entry_price >= stop_loss_price {
        entry_price - stop_loss_price
    } else {
        stop_loss_price - entry_price
    };
    if price_risk == 0 {
        None
    } else if fits_i64((balance * risk_pct) / price_risk) {
        Some((balance * risk_pct) / price_risk)
    } else {
        None
    }
}

/// `pct_at_least`, computed.
fn pct_at_least_exec(num: i128, den: i64, pct: i64) -> (r: bool)
    requires
        -0x1_0000_0000_0000_0000i128 <= num <= 0x1_0000_0000_0000_0000i128,
    ensures
        r == pct_at_least(num as int, den as int, pct as int),
{
    proof {
        assert(-0x1_0000_0000_0000_0000i128 * HUNDRED <= num * HUNDRED <= 0x1_0000_0000_0000_0000i128
            * HUNDRED) by (nonlinear_arith)
            requires
                -0x1_0000_0000_0000_0000i128 <= num <= 0x1_0000_0000_0000_0000i128,
        ;
        assert(i64::MIN * i64::MIN >= pct * den >= i64::MIN * i64::MAX) by (nonlinear_arith)
            requires
                i64::MIN <= pct <= i64::MAX,
                i64::MIN <= den <= i64::MAX,
        ;
    }
    if den > 0 {
        num * (HUNDRED as i128) >= pct as i128 * den as i128
    } else if den < 0 {
        num * (HUNDRED as i128) <= pct as i128 * den as i128
    } else {
        num > 0
    }
}

/// Offset of `pct` percent of `entry`, rounded up, as `pct_offset` states.
fn pct_offset_exec(entry: i64, pct: i64) -> (r: i128)
    ensures
        r == pct_offset(entry as int, pct as int),
        -0x1_0000_0000_0000_0000_0000_0000i128 <= r <= 0x1_0000_0000_0000_0000_0000_0000i128,
{
    proof {
        assert(i64::MIN * i64::MAX <= entry * pct <= i64::MIN * i64::MIN) by (nonlinear_arith)
            requires
                i64::MIN <= pct <= i64::MAX,
                i64::MIN <= entry <= i64::MAX,
        ;
    }
    let prod = entry as i128 * pct as i128;
    proof {
        crate::fixed::lemma_div_between(
            -prod,
            HUNDRED as int,
            -0x1_0000_0000_0000_0000_0000_0000int,
            0x1_0000_0000_0000_0000_0000_0000int,
        );
    }
    -floor_div(-prod, HUNDRED as i128)
}

impl RiskManager {
    /// Largest position value, fixed point.
    pub closed spec fn max_position_size_spec(&self) -> int {
        self.max_position_size as int
    }

    /// Loss percentage that closes a position, fixed point.
    pub closed spec fn stop_loss_pct_spec(&self) -> int {
        self.stop_loss_pct as int
    }

    /// Profit percentage that closes a position, fixed point.
    pub closed spec fn take_profit_pct_spec(&self) -> int {
        self.take_profit_pct as int
    }

    pub fn new(max_position_size: i64, stop_loss_pct: i64, take_profit_pct: i64) -> (r: Self)
        ensures
            r.max_position_size_spec() == max_position_size,
            r.stop_loss_pct_spec() == stop_loss_pct,
            r.take_profit_pct_spec() == take_profit_pct,
    {
        RiskManager { max_position_size, stop_loss_pct, take_profit_pct }
    }

    /// Whether a position of `quantity` at `price` stays within the largest
    /// position value.
    pub fn check_position_size(&self, quantity: i64, price: i64) -> (r: bool)
        ensures
            r == position_size_ok(self.max_position_size_spec(), quantity as int, price as int),
    {
        proof {
            assert(i64::MIN * i64::MAX <= quantity * price <= i64::MIN * i64::MIN) by (nonlinear_arith)
                requires
                    i64::MIN <= quantity <= i64::MAX,
                    i64::MIN <= price <= i64::MAX,
            ;
        }
        let position_value = quantity as i128 * price as i128;
        proof {
            assert(i64::MIN * crate::fixed::SCALE <= self.max_position_size * crate::fixed::SCALE
                <= i64::MAX * crate::fixed::SCALE) by (nonlinear_arith)
                requires
                    i64::MIN <= self.max_position_size <= i64::MAX,
            ;
        }
        position_value <= self.max_position_size as i128 * crate::fixed::SCALE as i128
    }

    /// Whether the loss of a position entered at `entry_price` reaches the
    /// stop-loss percentage at `current_price`.
    pub fn check_stop_loss(&self, entry_price: i64, current_price: i64, side: Side) -> (r: bool)
        ensures
            r == loss_reaches(
                entry_price as int,
                current_price as int,
                side,
                self.stop_loss_pct_spec(),
            ),
    {
        match side {
            Side::Buy => {
                let loss = entry_price as i128 - current_price as i128;
                pct_at_least_exec(loss, entry_price, self.stop_loss_pct)
            },
            Side::Sell => {
                let loss = current_price as i128 - entry_price as i128;
                pct_at_least_exec(loss, entry_price, self.stop_loss_pct)
            },
        }
    }

    /// Whether the profit of a position entered at `entry_price` reaches the
    /// take-profit percentage at `current_price`.
    pub fn check_take_profit(&self, entry_price: i64, current_price: i64, side: Side) -> (r: bool)
        ensures
            r == profit_reaches(
                entry_price as int,
                current_price as int,
                side,
                self.take_profit_pct_spec(),
            ),
    {
        match side {
            Side::Buy => {
                let profit = current_price as i128 - entry_price as i128;
                pct_at_least_exec(profit, entry_price, self.take_profit_pct)
            },
            Side::Sell => {
                let profit = entry_price as i128 - current_price as i128;
                pct_at_least_exec(profit, entry_price, self.take_profit_pct)
            },
        }
    }

    /// Quantity that risks `risk_pct` (a fraction, fixed point) of `balance`
    /// when the price moves from `entry_price` to `stop_loss_price`.
    pub fn calculate_position_size(
        &self,
        balance: i64,
        risk_pct: i64,
        entry_price: i64,
        stop_loss_price: i64,
    ) -> (r: Option<i64>)
        ensures
            opt_i64_int(r) == risk_position_size(
                balance as int,
                risk_pct as int,
                entry_price as int,
                stop_loss_price as int,
            ),
    {
        proof {
            assert(i64::MIN * i64::MAX <= balance * risk_pct <= i64::MIN * i64::MIN) by (nonlinear_arith)
                requires
                    i64::MIN <= balance <= i64::MAX,
                    i64::MIN <= risk_pct <= i64::MAX,
            ;
        }
        let risk_amount = balance as i128 * risk_pct as i128;
        let price_risk = if entry_price >= stop_loss_price {
            entry_price as i128 - stop_loss_price as i128
        } else {
            stop_loss_price as i128 - entry_price as i128
        };
        if price_risk == 0 {
            None
        } else {
            let q = floor_div(risk_amount, price_risk);
            if i64::MIN as i128 <= q && q <= i64::MAX as i128 {
                Some(q as i64)
            } else {
                None
            }
        }
    }

    /// Stop-loss price of a position entered at `entry_price`.
    pub fn calculate_stop_loss(&self, entry_price: i64, side: Side) -> (r: i64)
        requires
            fits_i64(stop_loss_price(entry_price as int, side, self.stop_loss_pct_spec())),
        ensures
            r == stop_loss_price(entry_price as int, side, self.stop_loss_pct_spec()),
    {
        let offset = pct_offset_exec(entry_price, self.stop_loss_pct);
        match side {
            Side::Buy => (entry_price as i128 - offset) as i64,
            Side::Sell => (entry_price as i128 + offset) as i64,
        }
    }

    /// Take-profit price of a position entered at `entry_price`.
    pub fn calculate_take_profit(&self, entry_price: i64, side: Side) -> (r: i64)
        requires
            fits_i64(take_profit_price(entry_price as int, side, self.take_profit_pct_spec())),
        ensures
            r == take_profit_price(entry_price as int, side, self.take_profit_pct_spec()),
    {
        let offset = pct_offset_exec(entry_price, self.take_profit_pct);
        match side {
            Side::Buy => (entry_price as i128 + offset) as i64,
            Side::Sell => (entry_price as i128 - offset) as i64,
        }
    }
}

/// Rounding a quotient up: `ceil_div(a, b) * b` is the least multiple of `b`
/// that is at least `a`.
pub proof fn lemma_ceil_div(a: int, b: int)
    requires
        b > 0,
    ensures
        a <= ceil_div(a, b) * b < a + b,
{
    vstd::arithmetic::div_mod::lemma_fundamental_div_mod(-a, b);
    let q = (-a) / b;
    let r = (-a) % b;
    assert(ceil_div(a, b) * b == a + r) by (nonlinear_arith)
        requires
            -a == b * q + r,
            ceil_div(a, b) == -q,
    ;
}

/// A position that reaches the price `calculate_stop_loss` gives for it
/// triggers `check_stop_loss`.
pub proof fn lemma_stop_loss_price_triggers(rm: RiskManager, entry: int, side: Side)
    requires
        entry > 0,
    ensures
        loss_reaches(
            entry,
            stop_loss_price(entry, side, rm.stop_loss_pct_spec()),
            side,
            rm.stop_loss_pct_spec(),
        ),
{
    let pct = rm.stop_loss_pct_spec();
    lemma_ceil_div(entry * pct, HUNDRED as int);
    let off = pct_offset(entry, pct);
    assert(off * HUNDRED >= pct * entry) by (nonlinear_arith)
        requires
            off * HUNDRED >= entry * pct,
    ;
}

/// A position that reaches the price `calculate_take_profit` gives for it
/// triggers `check_take_profit`.
pub proof fn lemma_take_profit_price_triggers(rm: RiskManager, entry: int, side: Side)
    requires
        entry > 0,
    ensures
        profit_reaches(
            entry,
            take_profit_price(entry, side, rm.take_profit_pct_spec()),
            side,
            rm.take_profit_pct_spec(),
        ),
{
    let pct = rm.take_profit_pct_spec();
    lemma_ceil_div(entry * pct, HUNDRED as int);
    let off = pct_offset(entry, pct);
    assert(off * HUNDRED >= pct * entry) by (nonlinear_arith)
        requires
            off * HUNDRED >= entry * pct,
    ;
}

/// With positive stop-loss and take-profit percentages, no price triggers
/// both checks for the same position.
pub proof fn lemma_stop_loss_take_profit_exclusive(rm: RiskManager, entry: int, current: int, side: Side)
    requires
        rm.stop_loss_pct_spec() > 0,
        rm.take_profit_pct_spec() > 0,
    ensures
        !(loss_reaches(entry, current, side, rm.stop_loss_pct_spec()) && profit_reaches(
            entry,
            current,
            side,
            rm.take_profit_pct_spec(),
        )),
{
    let sl = rm.stop_loss_pct_spec();
    let tp = rm.take_profit_pct_spec();
    let d = match side {
        Side::Buy => entry - current,
        Side::Sell => current - entry,
    };
    if entry > 0 {
        assert(!(d * HUNDRED >= sl * entry && (-d) * HUNDRED >= tp * entry)) by (nonlinear_arith)
            requires
                sl > 0,
                tp > 0,
                entry > 0,
        ;
    } else if entry < 0 {
        assert(!(d * HUNDRED <= sl * entry && (-d) * HUNDRED <= tp * entry)) by (nonlinear_arith)
            requires
                sl > 0,
                tp > 0,
                entry < 0,
        ;
    }
}

/// Once the stop loss of a position is reached, every price further against
/// the position reaches it too.
pub proof fn lemma_stop_loss_monotone(rm: RiskManager, entry: int, current: int, further: int, side: Side)
    requires
        entry > 0,
        loss_reaches(entry, current, side, rm.stop_loss_pct_spec()),
        side == Side::Buy ==> further <= current,
        side == Side::Sell ==> further >= current,
    ensures
        loss_reaches(entry, further, side, rm.stop_loss_pct_spec()),
{
    let pct = rm.stop_loss_pct_spec();
    match side {
        Side::Buy => {
            assert((entry - further) * HUNDRED >= (entry - current) * HUNDRED) by (nonlinear_arith)
                requires
                    further <= current,
            ;
        },
        Side::Sell => {
            assert((further - entry) * HUNDRED >= (current - entry) * HUNDRED) by (nonlinear_arith)
                requires
                    further >= current,
            ;
        },
    }
}

/// An optional `i64` read as an optional integer.
pub open spec fn opt_i64_int(o: Option<i64>) -> Option<int> {
    match o {
        Some(v) => Some(v as int),
        None => None,
    }
}

} // verus!
