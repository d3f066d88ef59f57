//! Trading strategies: what a strategy decides and the orders it places.
use vstd::prelude::*;

use crate::data::{Kline, Order, OrderStatus, OrderType, Side};
use crate::error::QuantError;
use crate::fixed::fits_i64;
use crate::indicator::TechnicalIndicators;

pub mod dual_ma;
pub mod rsi_strategy;

pub use dual_ma::DualMaStrategy;
pub use rsi_strategy::RsiStrategy;

verus! {

/// What a strategy advises for the next bar.
#[derive(Debug, Clone, Copy, PartialEq, Eq, Structural)]
pub enum Signal {
    Buy,
    Sell,
    Hold,
}

/// The account state a strategy sizes its orders from.
#[derive(Debug, Clone)]
pub struct StrategyContext {
    pub symbol: String,
    pub timestamp: i64,
    pub current_price: i64,
    pub position_size: i64,
    pub unrealized_pnl: i64,
    pub balance: i64,
}

/// Share of the balance committed per trade by the default sizing: `0.02`.
pub const RISK_PER_TRADE: i64 = 2_000_000;

/// Default position size: `RISK_PER_TRADE` of the balance, converted into a
/// quantity at the current price, rounded down.
pub open spec fn default_position_size(ctx: StrategyContext) -> int {
    let value = ctx.balance * RISK_PER_TRADE;
    if ctx.current_price > 0 {
        value / (ctx.current_price as int)
    } else {
        (-value) / (-ctx.current_price as int)
    }
}

/// The context can be sized: a price other than zero and a quantity that fits.
pub open spec fn sizable(ctx: StrategyContext) -> bool {
    ctx.current_price != 0 && fits_i64(default_position_size(ctx))
}

/// The order a signal calls for in a context: a market buy when no long
/// position is open, a market sell of the whole position when one is, and
/// nothing otherwise. `buy_quantity` and `timestamp` are the values the order
/// is placed with.
pub open spec fn order_for_signal(
    signal: Signal,
    ctx: StrategyContext,
    buy_quantity: int,
    timestamp: int,
    order: Option<Order>,
) -> bool {
    match signal {
        Signal::Buy => if ctx.position_size > 0 {
            order is None
        } else {
            &&& order is Some
            &&& order->0.side == Side::Buy
            &&& order->0.quantity == buy_quantity
            &&& fresh_market_order(ctx, timestamp, order->0)
        },
        Signal::Sell => if ctx.position_size <= 0 {
            order is None
        } else {
            &&& order is Some
            &&& order->0.side == Side::Sell
            &&& order->0.quantity == ctx.position_size
            &&& fresh_market_order(ctx, timestamp, order->0)
        },
        Signal::Hold => order is None,
    }
}

/// An unfilled market order for the context's symbol, without identifier.
pub open spec fn fresh_market_order(ctx: StrategyContext, timestamp: int, o: Order) -> bool {
    &&& o.id@ == Seq::<char>::empty()
    &&& o.symbol@ == ctx.symbol@
    &&& o.order_type == OrderType::Market
    &&& o.filled_quantity == 0
    &&& o.avg_price == 0
    &&& o.status == OrderStatus::Pending
    &&& o.timestamp == timestamp
}

/// The order `signal` calls for in `context`, placed with `buy_quantity` for
/// a buy and at `timestamp`.
pub fn order_from_signal(signal: Signal, context: &StrategyContext, buy_quantity: i64, timestamp: i64) -> (order: Option<Order>)
    ensures
        order_for_signal(signal, *context, buy_quantity as int, timestamp as int, order),
{
    match signal {
        Signal::Buy => {
            if context.position_size > 0 {
                return None;
            }
            Some(
                Order {
                    id: String::new(),
                    symbol: context.symbol.clone(),
                    side: Side::Buy,
                    order_type: OrderType::Market,
                    quantity: buy_quantity,
                    filled_quantity: 0,
                    avg_price: 0,
                    status: OrderStatus::Pending,
                    timestamp,
                },
            )
        },
        Signal::Sell => {
            if context.position_size <= 0 {
                return None;
            }
            Some(
                Order {
                    id: String::new(),
                    symbol: context.symbol.clone(),
                    side: Side::Sell,
                    order_type: OrderType::Market,
                    quantity: context.position_size,
                    filled_quantity: 0,
                    avg_price: 0,
                    status: OrderStatus::Pending,
                    timestamp,
                },
            )
        },
        Signal::Hold => None,
    }
}

/// The usual position size: `RISK_PER_TRADE` of the balance at the current
/// price, as `default_position_size` states.
pub fn sized_by_risk(context: &StrategyContext) -> (quantity: i64)
    requires
        sizable(*context),
    ensures
        quantity == default_position_size(*context),
{
    let position_value = context.balance as i128 * RISK_PER_TRADE as i128;
    proof {
        assert(i64::MIN * RISK_PER_TRADE <= context.balance * RISK_PER_TRADE <= i64::MAX
            * RISK_PER_TRADE) by (nonlinear_arith)
            requires
                i64::MIN <= context.balance <= i64::MAX,
        ;
    }
    if context.current_price > 0 {
        crate::fixed::floor_div(position_value, context.current_price as i128) as i64
    } else {
        crate::fixed::floor_div(-position_value, -(context.current_price as i128)) as i64
    }
}

/// A trading strategy: it reads the recent klines and advises a signal.
///
/// Each implementation states, through `signal_for` and `after_reading`,
/// what `on_data` answers for a window of klines and what the strategy
/// becomes by reading it, and through `position_size_for` how much it buys.
pub trait Strategy: Sized {
    /// What `on_data` returns for `klines`. A verified implementation
    /// states it here; the default names no particular answer.
    open spec fn signal_for(&self, klines: Seq<Kline>) -> Result<Signal, QuantError> {
        vstd::pervasive::arbitrary()
    }

    /// The strategy after `on_data` has read `klines`: by default it is left
    /// as it was.
    open spec fn after_reading(&self, klines: Seq<Kline>) -> Self {
        *self
    }

    /// The quantity `calculate_position_size` buys in `context`: by default
    /// `default_position_size`.
    open spec fn position_size_for(&self, context: StrategyContext) -> int {
        default_position_size(context)
    }

    /// Display name of the strategy.
    fn name(&self) -> &str;

    /// Signal for the bar after `klines`.
    fn on_data(&mut self, klines: &[Kline]) -> (r: Result<Signal, QuantError>)
        ensures
            r == old(self).signal_for(klines@),
            *final(self) == old(self).after_reading(klines@),
    ;

    /// The order `signal` calls for in `context`; buys are sized by
    /// `calculate_position_size` and orders are stamped with the current time.
    fn generate_order(&self, signal: Signal, context: &StrategyContext) -> (order: Option<Order>)
        requires
            signal == Signal::Buy && context.position_size <= 0 ==> sizable(*context),
        ensures
            exists|t: int|
                0 <= t < 9_000_000_000_000_000 && order_for_signal(
                    signal,
                    *context,
                    self.position_size_for(*context),
                    t,
                    order,
                ),
    {
        let buy_quantity = if signal == Signal::Buy && context.position_size <= 0 {
            self.calculate_position_size(context)
        } else {
            0
        };
        let now = crate::runtime::now_millis();
        let order = order_from_signal(signal, context, buy_quantity, now);
        proof {
            assert(order_for_signal(signal, *context, self.position_size_for(*context), now as int, order));
        }
        order
    }

    /// Quantity to buy in `context`; `sized_by_risk` is the usual choice.
    fn calculate_position_size(&self, context: &StrategyContext) -> (quantity: i64)
        requires
            sizable(*context),
        ensures
            quantity == self.position_size_for(*context),
    ;

    /// The indicator library the strategy computes with.
    fn get_indicators(&self) -> &TechnicalIndicators {
        &TechnicalIndicators
    }
}

} // verus!
