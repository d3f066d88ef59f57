//! A simulated exchange: a random-walk price history and instant fills.
use vstd::prelude::*;

use crate::data::{Balance, Kline, Order, OrderBook, OrderStatus, Position, Ticker};
use crate::fixed::{fits_i64, SCALE};

verus! {

/// One hour in milliseconds.
pub const HOUR_MS: i64 = 3_600_000;

/// Number of klines in the simulated history.
pub const MOCK_KLINES: usize = 1000;

/// Random draws used per simulated kline.
pub const DRAWS_PER_KLINE: usize = 5;

/// Price the simulated history starts from: 50000.
pub const MOCK_START_PRICE: i64 = 5_000_000_000_000;

/// The larger of two integers.
pub open spec fn max_int(a: int, b: int) -> int {
    if a >= b {
        a
    } else {
        b
    }
}

/// The smaller of two integers.
pub open spec fn min_int(a: int, b: int) -> int {
    if a <= b {
        a
    } else {
        b
    }
}

/// The simulated kline that follows price `price` at `timestamp`, from five
/// uniform draws in `[0, SCALE)` read as fractions `u` of one:
/// the open moves the price by `(u0 - 0.5) * 2%`, the close moves the open by
/// `(u1 - 0.5) * 1%`, the high lies `u2 * 0.5%` above the larger of the two,
/// the low `u3 * 0.5%` below the smaller, and the volume is `100 + u4 * 900`.
/// Each product is rounded down; `None` when a value leaves `i64`.
pub open spec fn mock_kline(price: int, timestamp: int, r: Seq<u64>) -> Option<Kline> {
    let s = SCALE as int;
    let open = (price * (4_950_000_000 + r[0])) / (50 * s);
    let close = (open * (9_950_000_000 + r[1])) / (100 * s);
    let high = (max_int(open, close) * (200 * s + r[2])) / (200 * s);
    let low = (min_int(open, close) * (200 * s - r[3])) / (200 * s);
    let volume = 100 * s + 900 * r[4];
    let quote_volume = (close * volume) / s;
    let trades = volume / (10 * s);
    if fits_i64(open) && fits_i64(close) && fits_i64(high) && fits_i64(quote_volume) {
        Some(
            Kline {
                timestamp: timestamp as i64,
                open: open as i64,
                high: high as i64,
                low: low as i64,
                close: close as i64,
                volume: volume as i64,
                quote_volume: quote_volume as i64,
                trades: trades as u64,
            },
        )
    } else {
        None
    }
}

/// The first `n` klines of the simulated history ending one hour-step before
/// `now + HOUR_MS` (the last kline is stamped `now`), the price they end at,
/// and whether the walk is still going. Kline `j` uses draws
/// `5 * j .. 5 * j + 5`; the walk stops early if a price leaves `i64`.
pub open spec fn mock_walk(now: int, draws: Seq<u64>, n: int) -> (Seq<Kline>, int, bool)
    decreases n,
{
    if n <= 0 {
        (Seq::empty(), MOCK_START_PRICE as int, true)
    } else {
        let prev = mock_walk(now, draws, n - 1);
        if !prev.2 {
            prev
        } else {
            let t = now - (MOCK_KLINES - n) * HOUR_MS;
            match mock_kline(prev.1, t, draws.subrange(5 * (n - 1), 5 * n)) {
                Some(k) => (prev.0.push(k), k.close as int, true),
                None => (prev.0, prev.1, false),
            }
        }
    }
}

/// A kline's low lies at or below its open and close, its high at or above
/// them, and its low is not negative.
pub open spec fn kline_well_formed(k: Kline) -> bool {
    &&& 0 <= k.low
    &&& k.low <= k.open <= k.high
    &&& k.low <= k.close <= k.high
}

/// `k` is one of the klines the simulated history consists of: well formed,
/// with a volume between 100 and 1000.
pub open spec fn mock_kline_shape(k: Kline) -> bool {
    &&& kline_well_formed(k)
    &&& 100 * SCALE <= k.volume < 1000 * SCALE
}

/// Floor of `a * b / d` for the non-negative, bounded operands of the walk.
fn mul_div(a: i64, b: i64, d: i64) -> (r: i128)
    requires
        a >= 0,
        0 <= b <= 100_000_000_000,
        d > 0,
    ensures
        r == (a * b) / (d as int),
        r >= 0,
{
    proof {
        assert(0 <= a * b <= i64::MAX * 100_000_000_000) by (nonlinear_arith)
            requires
                0 <= a <= i64::MAX,
                0 <= b <= 100_000_000_000,
        ;
        vstd::arithmetic::div_mod::lemma_div_pos_is_pos(a * b, d as int);
    }
    (a as i128 * b as i128) / d as i128
}

/// The simulated kline after `price`, as `mock_kline` states.
fn mock_kline_exec(price: i64, timestamp: i64, r: &[u64], at: usize) -> (k: Option<Kline>)
    requires
        price >= 0,
        at + 5 <= r@.len(),
        forall|j: int| at <= j < at + 5 ==> #[trigger] r@[j] < SCALE,
    ensures
        match mock_kline(price as int, timestamp as int, r@.subrange(at as int, at + 5)) {
            Some(m) => k == Some(m) && mock_kline_shape(m),
            None => k is None,
        },
{
    let ghost rs = r@.subrange(at as int, at + 5);
    let s = SCALE;
    assert(r@[at as int] < SCALE && r@[at + 1] < SCALE && r@[at + 2] < SCALE && r@[at + 3] < SCALE && r@[at
        + 4] < SCALE);
    let open = mul_div(price, 4_950_000_000 + r[at] as i64, 50 * s);
    if open > i64::MAX as i128 {
        return None;
    }
    let open = open as i64;
    let close = mul_div(open, 9_950_000_000 + r[at + 1] as i64, 100 * s);
    if close > i64::MAX as i128 {
        return None;
    }
    let close = close as i64;
    let hi_base = if open >= close {
        open
    } else {
        close
    };
    let lo_base = if open <= close {
        open
    } else {
        close
    };
    let high = mul_div(hi_base, 200 * s + r[at + 2] as i64, 200 * s);
    let low = mul_div(lo_base, 200 * s - r[at + 3] as i64, 200 * s);
    let volume = 100 * s + 900 * r[at + 4] as i64;
    let quote_volume = mul_div(close, volume, s);
    if high > i64::MAX as i128 || quote_volume > i64::MAX as i128 {
        proof {
            assert(rs[0] == r@[at as int] && rs[1] == r@[at + 1] && rs[2] == r@[at + 2]);
        }
        return None;
    }
    proof {
        assert(rs[0] == r@[at as int] && rs[1] == r@[at + 1] && rs[2] == r@[at + 2] && rs[3] == r@[at
            + 3] && rs[4] == r@[at + 4]);
        assert(hi_base * 200 * s <= hi_base * (200 * s + r@[at + 2])) by (nonlinear_arith)
            requires
                hi_base >= 0,
                r@[at + 2] >= 0,
        ;
        assert(hi_base * (200 * s) == hi_base * 200 * s) by (nonlinear_arith);
        crate::fixed::lemma_div_between(
            hi_base * (200 * s + r@[at + 2]),
            200 * s,
            hi_base as int,
            hi_base * (200 * s + r@[at + 2]),
        );
        assert(lo_base * (200 * s - r@[at + 3]) <= lo_base * (200 * s)) by (nonlinear_arith)
            requires
                lo_base >= 0,
                r@[at + 3] >= 0,
        ;
        assert(0 <= lo_base * (200 * s - r@[at + 3])) by (nonlinear_arith)
            requires
                lo_base >= 0,
                r@[at + 3] < s,
                s == 100_000_000,
        ;
        crate::fixed::lemma_div_between(lo_base * (200 * s - r@[at + 3]), 200 * s, 0, lo_base as int);
    }
    Some(
        Kline {
            timestamp,
            open,
            high: high as i64,
            low: low as i64,
            close,
            volume,
            quote_volume: quote_volume as i64,
            trades: (volume / (10 * s)) as u64,
        },
    )
}

/// A walk that has stopped stays as it is.
proof fn lemma_mock_walk_stopped(now: int, draws: Seq<u64>, n: int, m: int)
    requires
        0 <= n <= m,
        !mock_walk(now, draws, n).2,
    ensures
        mock_walk(now, draws, m) == mock_walk(now, draws, n),
    decreases m - n,
{
    if m > n {
        lemma_mock_walk_stopped(now, draws, n, m - 1);
    }
}

/// The simulated history for the clock reading `now` and the random draws
/// `draws`, as `mock_walk` states: one kline per hour, the last one at `now`;
/// all `MOCK_KLINES` of them unless a price of the walk leaves `i64`.
pub fn mock_klines(now: i64, draws: &[u64]) -> (ks: Vec<Kline>)
    requires
        0 <= now < 9_000_000_000_000_000,
        draws@.len() == MOCK_KLINES * DRAWS_PER_KLINE,
        forall|j: int| 0 <= j < draws@.len() ==> #[trigger] draws@[j] < SCALE,
    ensures
        ks@ == mock_walk(now as int, draws@, MOCK_KLINES as int).0,
        ks@.len() <= MOCK_KLINES,
        ks@.len() == MOCK_KLINES <==> mock_walk(now as int, draws@, MOCK_KLINES as int).2,
        forall|i: int| 0 <= i < ks@.len() ==> mock_kline_shape(#[trigger] ks@[i]),
        forall|i: int|
            0 <= i < ks@.len() ==> #[trigger] ks@[i].timestamp == now - (MOCK_KLINES - 1 - i) * HOUR_MS,
{
    let mut ks: Vec<Kline> = Vec::new();
    let mut price: i64 = MOCK_START_PRICE;
    let mut j: usize = 0;
    while j < MOCK_KLINES
        invariant
            0 <= now < 9_000_000_000_000_000,
            draws@.len() == MOCK_KLINES * DRAWS_PER_KLINE,
            forall|q: int| 0 <= q < draws@.len() ==> #[trigger] draws@[q] < SCALE,
            j <= MOCK_KLINES,
            mock_walk(now as int, draws@, j as int) == (ks@, price as int, true),
            price >= 0,
            ks@.len() == j,
            forall|i: int| 0 <= i < ks@.len() ==> mock_kline_shape(#[trigger] ks@[i]),
            forall|i: int|
                0 <= i < ks@.len() ==> #[trigger] ks@[i].timestamp == now - (MOCK_KLINES - 1 - i)
                    * HOUR_MS,
        decreases MOCK_KLINES - j,
    {
        let t = now - ((MOCK_KLINES - 1 - j) as i64) * HOUR_MS;
        proof {
            assert forall|q: int| 5 * j <= q < 5 * j + 5 implies #[trigger] draws@[q] < SCALE by {
                assert(0 <= q < draws@.len());
            }
        }
        match mock_kline_exec(price, t, draws, 5 * j) {
            Some(k) => {
                ks.push(k);
                price = k.close;
            },
            None => {
                proof {
                    lemma_mock_walk_stopped(now as int, draws@, j + 1, MOCK_KLINES as int);
                }
                return ks;
            },
        }
        j = j + 1;
    }
    ks
}

/// A fresh simulated history: one kline per hour up to now, from random draws.
fn generate_mock_klines() -> (ks: Vec<Kline>)
    ensures
        exists|now: int, draws: Seq<u64>|
            {
                &&& draws.len() == MOCK_KLINES * DRAWS_PER_KLINE
                &&& forall|j: int| 0 <= j < draws.len() ==> #[trigger] draws[j] < SCALE
                &&& ks@ == #[trigger] mock_walk(now, draws, MOCK_KLINES as int).0
                &&& ks@.len() == MOCK_KLINES <==> mock_walk(now, draws, MOCK_KLINES as int).2
            },
        ks@.len() <= MOCK_KLINES,
        forall|i: int| 0 <= i < ks@.len() ==> mock_kline_shape(#[trigger] ks@[i]),
        forall|i: int|
            0 < i < ks@.len() ==> #[trigger] ks@[i].timestamp - ks@[i - 1].timestamp == HOUR_MS,
{
    let now = crate::runtime::now_millis();
    let total = MOCK_KLINES * DRAWS_PER_KLINE;
    let mut draws: Vec<u64> = Vec::with_capacity(total);
    for j in 0..total
        invariant
            total == MOCK_KLINES * DRAWS_PER_KLINE,
            draws@.len() == j,
            forall|q: int| 0 <= q < j ==> #[trigger] draws@[q] < SCALE,
    {
        draws.push(crate::runtime::random_below(SCALE as u64));
    }
    let ks = mock_klines(now, &draws);
    proof {
        assert(ks@ == mock_walk(now as int, draws@, MOCK_KLINES as int).0);
        assert forall|i: int| 0 < i < ks@.len() implies #[trigger] ks@[i].timestamp - ks@[i - 1].timestamp
            == HOUR_MS by {
            assert(ks@[i].timestamp == now - (MOCK_KLINES - 1 - i) * HOUR_MS);
            assert(ks@[i - 1].timestamp == now - (MOCK_KLINES - 1 - (i - 1)) * HOUR_MS);
        }
    }
    ks
}

/// `k` lies in the requested time range: at or after `start` and at or
/// before `end`, each bound applying when given.
pub open spec fn in_time_range(k: Kline, start: Option<i64>, end: Option<i64>) -> bool {
    &&& (start matches Some(s) ==> k.timestamp >= s)
    &&& (end matches Some(e) ==> k.timestamp <= e)
}

/// The klines of `s` in the requested time range, in order.
pub open spec fn klines_in_range(s: Seq<Kline>, start: Option<i64>, end: Option<i64>) -> Seq<Kline>
    decreases s.len(),
{
    if s.len() == 0 {
        Seq::empty()
    } else {
        let prev = klines_in_range(s.drop_last(), start, end);
        if in_time_range(s.last(), start, end) {
            prev.push(s.last())
        } else {
            prev
        }
    }
}

/// The klines a request returns: those in the time range, then, when a
/// limit is given, only the last `limit` of them.
pub open spec fn requested_klines(s: Seq<Kline>, start: Option<i64>, end: Option<i64>, limit: Option<usize>) -> Seq<Kline> {
    let f = klines_in_range(s, start, end);
    match limit {
        Some(lim) => if f.len() > lim {
            f.skip(f.len() - lim)
        } else {
            f
        },
        None => f,
    }
}

/// The depth of a book request, 10 when not given.
pub open spec fn depth_or_default(depth: Option<usize>) -> int {
    match depth {
        Some(d) => d as int,
        None => 10,
    }
}

/// Every price level of a book of `depth` levels around `price` fits an `i64`.
pub open spec fn book_fits(price: int, depth: int) -> bool {
    (if price >= 0 {
        price
    } else {
        -price
    }) * (1000 + depth) <= 1000 * i64::MAX
}

/// Every kline a request returns lies in the requested time range, in the
/// order of the history, and a limit bounds how many come back.
pub proof fn lemma_requested_klines(s: Seq<Kline>, start: Option<i64>, end: Option<i64>, limit: Option<usize>)
    ensures
        forall|i: int|
            0 <= i < requested_klines(s, start, end, limit).len() ==> in_time_range(
                #[trigger] requested_klines(s, start, end, limit)[i],
                start,
                end,
            ),
        requested_klines(s, start, end, limit).len() <= s.len(),
        limit matches Some(l) ==> requested_klines(s, start, end, limit).len() <= l,
{
    lemma_klines_in_range(s, start, end);
}

proof fn lemma_klines_in_range(s: Seq<Kline>, start: Option<i64>, end: Option<i64>)
    ensures
        forall|i: int|
            0 <= i < klines_in_range(s, start, end).len() ==> in_time_range(
                #[trigger] klines_in_range(s, start, end)[i],
                start,
                end,
            ),
        klines_in_range(s, start, end).len() <= s.len(),
    decreases s.len(),
{
    if s.len() > 0 {
        lemma_klines_in_range(s.drop_last(), start, end);
    }
}

/// Two orders agree in every field.
pub open spec fn same_order(a: Order, b: Order) -> bool {
    &&& a.id@ == b.id@
    &&& a.symbol@ == b.symbol@
    &&& a.side == b.side
    &&& a.order_type == b.order_type
    &&& a.quantity == b.quantity
    &&& a.filled_quantity == b.filled_quantity
    &&& a.avg_price == b.avg_price
    &&& a.status == b.status
    &&& a.timestamp == b.timestamp
}

/// A copy of an order.
pub fn copy_order(o: &Order) -> (c: Order)
    ensures
        same_order(c, *o),
{
    Order {
        id: o.id.clone(),
        symbol: o.symbol.clone(),
        side: o.side,
        order_type: o.order_type,
        quantity: o.quantity,
        filled_quantity: o.filled_quantity,
        avg_price: o.avg_price,
        status: o.status,
        timestamp: o.timestamp,
    }
}

/// No two orders share an identifier.
pub open spec fn ids_unique(orders: Seq<Order>) -> bool {
    forall|i: int, j: int|
        0 <= i < orders.len() && 0 <= j < orders.len() && i != j ==> #[trigger] orders[i].id@
            != #[trigger] orders[j].id@
}

/// No two balances are of the same asset.
pub open spec fn assets_unique(balances: Seq<Balance>) -> bool {
    forall|i: int, j: int|
        0 <= i < balances.len() && 0 <= j < balances.len() && i != j ==> #[trigger] balances[i].asset@
            != #[trigger] balances[j].asset@
}

/// A simulated exchange over a random-walk price history. Orders fill at
/// once at the current price. Orders are known by identifier and balances by
/// asset: each occurs once.
pub struct MockExchange {
    klines: Vec<Kline>,
    orders: Vec<Order>,
    balances: Vec<Balance>,
    current_price: i64,
}

impl MockExchange {
    #[verifier::type_invariant]
    spec fn keys_unique(self) -> bool {
        ids_unique(self.orders@) && assets_unique(self.balances@)
    }

    /// The simulated price history.
    pub closed spec fn klines_spec(&self) -> Seq<Kline> {
        self.klines@
    }

    /// The orders the exchange knows.
    pub closed spec fn orders_spec(&self) -> Seq<Order> {
        self.orders@
    }

    /// The balances of the account, one per asset.
    pub closed spec fn balances_spec(&self) -> Seq<Balance> {
        self.balances@
    }

    /// The price orders fill at.
    pub closed spec fn current_price_spec(&self) -> int {
        self.current_price as int
    }

    /// A fresh exchange: a simulated history of hourly klines up to now, no
    /// orders, 10000 USDT and no BTC, and a price of 50000.
    pub fn new() -> (e: Self)
        ensures
            exists|now: int, draws: Seq<u64>|
                {
                    &&& draws.len() == MOCK_KLINES * DRAWS_PER_KLINE
                    &&& forall|j: int| 0 <= j < draws.len() ==> #[trigger] draws[j] < SCALE
                    &&& e.klines_spec() == #[trigger] mock_walk(now, draws, MOCK_KLINES as int).0
                    &&& e.klines_spec().len() == MOCK_KLINES <==> mock_walk(
                        now,
                        draws,
                        MOCK_KLINES as int,
                    ).2
                },
            forall|i: int|
                0 <= i < e.klines_spec().len() ==> mock_kline_shape(#[trigger] e.klines_spec()[i]),
            forall|i: int|
                0 < i < e.klines_spec().len() ==> #[trigger] e.klines_spec()[i].timestamp
                    - e.klines_spec()[i - 1].timestamp == HOUR_MS,
            e.orders_spec().len() == 0,
            e.balances_spec().len() == 2,
            e.balances_spec()[0].asset@ == seq!['U', 'S', 'D', 'T'],
            e.balances_spec()[0].free == 10000 * SCALE,
            e.balances_spec()[0].locked == 0,
            e.balances_spec()[1].asset@ == seq!['B', 'T', 'C'],
            e.balances_spec()[1].free == 0,
            e.balances_spec()[1].locked == 0,
            e.current_price_spec() == MOCK_START_PRICE,
    {
        let mut balances: Vec<Balance> = Vec::new();
        let usdt = String::from_str("USDT");
        let btc = String::from_str("BTC");
        proof {
            reveal_strlit("USDT");
            reveal_strlit("BTC");
        }
        balances.push(Balance { asset: usdt, free: 10000 * SCALE, locked: 0 });
        balances.push(Balance { asset: btc, free: 0, locked: 0 });
        proof {
            assert(balances@[0].asset@.len() != balances@[1].asset@.len());
        }
        MockExchange {
            klines: generate_mock_klines(),
            orders: Vec::new(),
            balances,
            current_price: MOCK_START_PRICE,
        }
    }

    /// Sets the price orders fill at.
    pub fn set_price(&mut self, price: i64)
        ensures
            final(self).current_price_spec() == price,
            final(self).klines_spec() == old(self).klines_spec(),
            final(self).orders_spec() == old(self).orders_spec(),
            final(self).balances_spec() == old(self).balances_spec(),
    {
        proof {
            use_type_invariant(&*self);
        }
        self.current_price = price;
    }

    /// The klines between `start_time` and `end_time` (each bound when
    /// given), and of those only the last `limit` when a limit is given.
    pub fn get_klines(
        &self,
        symbol: &str,
        timeframe: &str,
        start_time: Option<i64>,
        end_time: Option<i64>,
        limit: Option<usize>,
    ) -> (ks: Vec<Kline>)
        ensures
            ks@ == requested_klines(self.klines_spec(), start_time, end_time, limit),
    {
        let n = self.klines.len();
        let mut filtered: Vec<Kline> = Vec::new();
        for i in 0..n
            invariant
                n == self.klines@.len(),
                filtered@ == klines_in_range(self.klines@.take(i as int), start_time, end_time),
        {
            let k = self.klines[i];
            proof {
                assert(self.klines@.take(i + 1).drop_last() =~= self.klines@.take(i as int));
                assert(self.klines@.take(i + 1).last() == k);
            }
            let keep_start = match start_time {
                Some(s) => k.timestamp >= s,
                None => true,
            };
            let keep_end = match end_time {
                Some(e) => k.timestamp <= e,
                None => true,
            };
            if keep_start && keep_end {
                filtered.push(k);
            }
        }
        proof {
            assert(self.klines@.take(n as int) =~= self.klines@);
        }
        match limit {
            Some(lim) => {
                let len = filtered.len();
                let start_idx = if len > lim {
                    len - lim
                } else {
                    0
                };
                let mut out: Vec<Kline> = Vec::with_capacity(len - start_idx);
                for i in start_idx..len
                    invariant
                        len == filtered@.len(),
                        start_idx <= len,
                        out@ == filtered@.subrange(start_idx as int, i as int),
                {
                    out.push(filtered[i]);
                    proof {
                        assert(out@ =~= filtered@.subrange(start_idx as int, i + 1));
                    }
                }
                proof {
                    assert(out@ =~= filtered@.skip(start_idx as int));
                    if len <= lim {
                        assert(filtered@.skip(0) =~= filtered@);
                    }
                }
                out
            },
            None => filtered,
        }
    }

    /// The ticker of `symbol` at the current price, stamped now.
    pub fn get_ticker(&self, symbol: &str) -> (t: Ticker)
        ensures
            t.symbol@ == symbol@,
            t.price == self.current_price_spec(),
            t.timestamp >= 0,
    {
        Ticker {
            symbol: String::from_str(symbol),
            price: self.current_price,
            timestamp: crate::runtime::now_millis(),
        }
    }

    /// A book of `depth` levels (10 when not given) around the current
    /// price: level `i` bids `0.1% * (i + 1)` below it, rounded down, and asks
    /// as much above it, rounded up, both for the same random quantity between
    /// 1 and 11. At a positive price every bid lies below it and every ask
    /// above it.
    pub fn get_order_book(&self, symbol: &str, depth: Option<usize>) -> (b: OrderBook)
        requires
            book_fits(self.current_price_spec(), depth_or_default(depth)),
        ensures
            b.symbol@ == symbol@,
            b.bids@.len() == depth_or_default(depth),
            b.asks@.len() == depth_or_default(depth),
            forall|i: int|
                0 <= i < b.bids@.len() ==> {
                    &&& (#[trigger] b.bids@[i]).0 == (self.current_price_spec() * (999 - i)) / 1000
                    &&& b.asks@[i].0 == (self.current_price_spec() * (1001 + i) + 999) / 1000
                    &&& b.bids@[i].1 == b.asks@[i].1
                    &&& SCALE <= b.bids@[i].1 < 11 * SCALE
                },
            self.current_price_spec() > 0 ==> forall|i: int|
                0 <= i < b.bids@.len() ==> (#[trigger] b.bids@[i]).0 < self.current_price_spec()
                    < b.asks@[i].0,
            b.timestamp >= 0,
    {
        let depth = match depth {
            Some(d) => d,
            None => 10,
        };
        let price = self.current_price;
        let ghost p = price as int;
        let mut bids: Vec<(i64, i64)> = Vec::new();
        let mut asks: Vec<(i64, i64)> = Vec::new();
        for i in 0..depth
            invariant
                p == self.current_price_spec(),
                p == price,
                book_fits(p, depth as int),
                bids@.len() == i,
                asks@.len() == i,
                forall|k: int|
                    0 <= k < i ==> {
                        &&& (#[trigger] bids@[k]).0 == (p * (999 - k)) / 1000
                        &&& asks@[k].0 == (p * (1001 + k) + 999) / 1000
                        &&& bids@[k].1 == asks@[k].1
                        &&& SCALE <= bids@[k].1 < 11 * SCALE
                    },
                p > 0 ==> forall|k: int|
                    0 <= k < i ==> (#[trigger] bids@[k]).0 < p < asks@[k].0,
        {
            proof {
                let a = if p >= 0 { p } else { -p };
                assert(-(a * (1000 + depth)) <= p * (999 - i) <= a * (1000 + depth)) by (nonlinear_arith)
                    requires
                        a == (if p >= 0 { p } else { -p }),
                        0 <= i < depth,
                ;
                assert(-(a * (1000 + depth)) <= p * (1001 + i) <= a * (1000 + depth)) by (nonlinear_arith)
                    requires
                        a == (if p >= 0 { p } else { -p }),
                        0 <= i < depth,
                ;
                crate::fixed::lemma_div_between(p * (999 - i), 1000, i64::MIN as int, i64::MAX as int);
                crate::fixed::lemma_ceil_between(p * (1001 + i), 1000, i64::MIN as int, i64::MAX as int);
                if p > 0 {
                    assert(p * (999 - i) < 1000 * p && p * (1001 + i) > 1000 * p) by (nonlinear_arith)
                        requires
                            p > 0,
                            0 <= i,
                    ;
                    crate::fixed::lemma_div_below(p * (999 - i), 1000, p);
                    crate::fixed::lemma_ceil_above(p * (1001 + i), 1000, p);
                }
            }
            let bid_price = crate::fixed::floor_div(price as i128 * (999 - i as i128), 1000) as i64;
            let ask_price = crate::fixed::floor_div(
                price as i128 * (1001 + i as i128) + 999,
                1000,
            ) as i64;
            let quantity = SCALE + 10 * crate::runtime::random_below(SCALE as u64) as i64;
            let ghost old_bids = bids@;
            let ghost old_asks = asks@;
            proof {
                assert(bid_price == (p * (999 - i)) / 1000);
                assert(ask_price == (p * (1001 + i) + 999) / 1000);
            }
            bids.push((bid_price, quantity));
            asks.push((ask_price, quantity));
            proof {
                assert forall|k: int| 0 <= k < i + 1 implies {
                    &&& (#[trigger] bids@[k]).0 == (p * (999 - k)) / 1000
                    &&& asks@[k].0 == (p * (1001 + k) + 999) / 1000
                    &&& bids@[k].1 == asks@[k].1
                    &&& SCALE <= bids@[k].1 < 11 * SCALE
                } by {
                    if k < i {
                        assert(bids@[k] == old_bids[k]);
                        assert(asks@[k] == old_asks[k]);
                    }
                }
                if p > 0 {
                    assert(bid_price < p < ask_price);
                    assert forall|k: int| 0 <= k < i + 1 implies (#[trigger] bids@[k]).0 < p < asks@[k].0 by {
                        if k < i {
                            assert(bids@[k] == old_bids[k]);
                            assert(asks@[k] == old_asks[k]);
                        }
                    }
                }
            }
        }
        OrderBook {
            symbol: String::from_str(symbol),
            bids,
            asks,
            timestamp: crate::runtime::now_millis(),
        }
    }

    /// Marks `order` as filled at once, in full and at the current price,
    /// under a fresh identifier.
    pub fn place_order(&self, order: Order) -> (o: Order)
        ensures
            crate::runtime::is_uuid_v4_text(o.id@),
            o.status == OrderStatus::Filled,
            o.filled_quantity == order.quantity,
            o.avg_price == self.current_price_spec(),
            o.symbol == order.symbol,
            o.side == order.side,
            o.order_type == order.order_type,
            o.quantity == order.quantity,
            o.timestamp == order.timestamp,
    {
        let mut order = order;
        order.id = crate::runtime::new_order_id();
        order.status = OrderStatus::Filled;
        order.filled_quantity = order.quantity;
        order.avg_price = self.current_price;
        order
    }

    /// Cancels an order; the simulated exchange accepts every cancellation.
    pub fn cancel_order(&self, symbol: &str, order_id: &str) -> (r: bool)
        ensures
            r,
    {
        true
    }

    /// The known order with identifier `order_id`, if any; there is at most one.
    pub fn get_order(&self, symbol: &str, order_id: &str) -> (r: Option<Order>)
        ensures
            ids_unique(self.orders_spec()),
            match r {
                Some(o) => exists|i: int|
                    0 <= i < self.orders_spec().len() && #[trigger] self.orders_spec()[i].id@ == order_id@
                        && same_order(o, self.orders_spec()[i]),
                None => forall|i: int|
                    0 <= i < self.orders_spec().len() ==> #[trigger] self.orders_spec()[i].id@ != order_id@,
            },
    {
        proof {
            use_type_invariant(self);
        }
        let n = self.orders.len();
        for i in 0..n
            invariant
                n == self.orders@.len(),
                ids_unique(self.orders@),
                forall|k: int| 0 <= k < i ==> #[trigger] self.orders@[k].id@ != order_id@,
        {
            proof {
                assert(self.orders_spec() == self.orders@);
            }
            if crate::text::str_eq(self.orders[i].id.as_str(), order_id) {
                return Some(copy_order(&self.orders[i]));
            }
        }
        None
    }

    /// The balances of the account, one per asset.
    pub fn get_balance(&self) -> (b: Vec<Balance>)
        ensures
            assets_unique(self.balances_spec()),
            b@.len() == self.balances_spec().len(),
            forall|i: int|
                0 <= i < b@.len() ==> (#[trigger] b@[i]).asset@ == self.balances_spec()[i].asset@
                    && b@[i].free == self.balances_spec()[i].free && b@[i].locked
                    == self.balances_spec()[i].locked,
    {
        proof {
            use_type_invariant(self);
        }
        let n = self.balances.len();
        let mut out: Vec<Balance> = Vec::with_capacity(n);
        for i in 0..n
            invariant
                n == self.balances@.len(),
                out@.len() == i,
                forall|k: int|
                    0 <= k < i ==> (#[trigger] out@[k]).asset@ == self.balances@[k].asset@
                        && out@[k].free == self.balances@[k].free && out@[k].locked
                        == self.balances@[k].locked,
        {
            let b = &self.balances[i];
            out.push(Balance { asset: b.asset.clone(), free: b.free, locked: b.locked });
        }
        out
    }

    /// Open positions; the simulated exchange keeps none.
    pub fn get_positions(&self) -> (p: Vec<Position>)
        ensures
            p@.len() == 0,
    {
        Vec::new()
    }
}

} // verus!
