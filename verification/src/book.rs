//! The order book for one instrument: a bid side and an ask side, the checks
//! an order passes before it joins, and the views the book gives of itself.

use vstd::prelude::*;
use crate::external::now_nanos;
use crate::order::{
    ClientId, Order, OrderId, OrderSide, OrderStatus, OrderType, Price, Quantity, TimeInForce, Timestamp,
    is_v4_uuid, total_remaining,
};
use crate::price_level::PriceLevelData;
use crate::market_depth::{
    ExecutionLevel, LiquidityData, MarketDepthData, MarketDepthOptions, MarketImpactData, PriceVolumeLevel,
    default_depth_options, depth_row, executions_view, fill_plan, ladder, lemma_fill_plan_volume,
    lemma_ladder_volume, lemma_plan_value_bound, plan_value, plan_volume,
};
use crate::side::{
    AskSide, BidSide, DepthView, Side, SideData, best_index, best_levels, depth_added,
    depth_best_price, depth_contains_id, depth_removed, depth_removed_at, depth_total, has_level, level_size,
    lemma_add_then_remove, lemma_added, lemma_added_shape, lemma_best_levels_step, lemma_removed, lemma_removed_at, order_of_id,
    order_total, orders_in_range, priority_index, volume_in_range, depth_ids, lemma_order_total,
    lemma_depth_total_bound, lemma_point_range, lemma_range_by_orders, side_orders_within, side_volume_within,
};

verus! {

/// Order book configuration; prices and quantities are in internal
/// fixed-point units.
#[derive(Debug, Clone, Copy, PartialEq, Eq, Structural)]
pub struct OrderBookConfig {
    /// Tick size (minimum price increment)
    pub tick_size: Price,
    /// Lot size (minimum quantity increment)
    pub lot_size: Quantity,
    /// Minimum order size
    pub min_order_size: Quantity,
    /// Maximum order size
    pub max_order_size: Quantity,
    /// Maximum number of price levels
    pub max_levels: usize,
    /// Maximum number of orders per price level
    pub max_orders_per_level: usize,
    /// Maximum total orders in the book
    pub max_total_orders: usize,
    /// Buffer size for each price level
    pub buffer_size: usize,
}

impl Default for OrderBookConfig {
    /// Tick 0.01, lot 0.0001, orders from 0.001 to 1000, at most 1000 levels,
    /// 10000 orders per level and 1000000 orders in all, 1024 slots a level.
    fn default() -> (c: Self)
        ensures
            c == (OrderBookConfig {
                tick_size: 1000,
                lot_size: 10_000,
                min_order_size: 100_000,
                max_order_size: 100_000_000_000,
                max_levels: 1000,
                max_orders_per_level: 10000,
                max_total_orders: 1000000,
                buffer_size: 1024,
            }),
    {
        OrderBookConfig {
            tick_size: 1000,
            lot_size: 10_000,
            min_order_size: 100_000,
            max_order_size: 100_000_000_000,
            max_levels: 1000,
            max_orders_per_level: 10000,
            max_total_orders: 1000000,
            buffer_size: 1024,
        }
    }
}

/// Order book error
#[derive(Debug, Clone)]
pub enum OrderBookError {
    /// Invalid order size
    InvalidOrderSize(String),
    /// Order not found
    OrderNotFound,
    /// Order book full
    OrderBookFull,
    /// Price level full
    PriceLevelFull,
    /// Other error
    Other(String),
}

/// Order book for a single instrument
pub struct OrderBook {
    /// Symbol of the instrument
    symbol: String,
    /// Exchange ID
    exchange_id: String,
    /// Bid side of the order book
    bid_side: BidSide,
    /// Ask side of the order book
    ask_side: AskSide,
    /// Last update ID
    last_update_id: u64,
    /// Timestamp of the last update
    timestamp: Timestamp,
    /// Configuration
    config: OrderBookConfig,
}

/// Market data snapshot
#[derive(Debug, Clone)]
pub struct MarketDataSnapshot {
    /// Timestamp of the snapshot
    pub timestamp: Timestamp,
    /// Last update ID
    pub last_update_id: u64,
    /// Bid levels (price, quantity), best first
    pub bids: Vec<(Price, Quantity)>,
    /// Ask levels (price, quantity), best first
    pub asks: Vec<(Price, Quantity)>,
}

/// Order book data
#[derive(Debug, Clone)]
pub struct OrderBookData {
    /// Symbol of the instrument
    pub symbol: String,
    /// Exchange ID
    pub exchange_id: String,
    /// Timestamp of the last update
    pub timestamp: Timestamp,
    /// Last update ID
    pub last_update_id: u64,
    /// Bid side of the order book
    pub bid_side: SideData,
    /// Ask side of the order book
    pub ask_side: SideData,
    /// Market data snapshot
    pub market_data: MarketDataSnapshot,
    /// Configuration
    pub config: OrderBookConfig,
    /// Number of price levels on both sides
    pub order_depth: usize,
}

/// `d` summarizes the side `v`, whose levels have the summary data
/// `records`, as the book reports it: best price, volume, number of levels,
/// the levels best first, the number of orders, and the distance between the
/// best and the worst price.
pub open spec fn side_summary(d: SideData, v: DepthView, records: Seq<PriceLevelData>, side: OrderSide) -> bool {
    &&& d.best_price == depth_best_price(v, side)
    &&& d.total_volume == depth_total(v)
    &&& d.depth == v.len()
    &&& d.price_levels@.len() == v.len()
    &&& forall|j: int| 0 <= j < d.price_levels@.len() ==> {
        let i = priority_index(v.len(), side, j);
        &&& (#[trigger] d.price_levels@[j]).0 == v[i].0
        &&& d.price_levels@[j].1 == records[i]
        &&& d.price_levels@[j].1.price == v[i].0
        &&& d.price_levels@[j].1.total_quantity == total_remaining(v[i].1)
        &&& d.price_levels@[j].1.order_count == v[i].1.len()
    }
    &&& d.statistics.order_count == order_total(v)
    &&& d.statistics.depth_in_pips == if v.len() == 0 { 0 } else { v[v.len() - 1].0 - v[0].0 }
}

/// The prices of a side span no more than a price can hold.
pub open spec fn span_fits(v: DepthView) -> bool {
    v.len() > 0 ==> v[v.len() - 1].0 - v[0].0 <= i64::MAX
}

/// `top` lists the first `n` levels of side `v` in priority order as (price,
/// volume).
pub open spec fn top_levels(top: Seq<(Price, Quantity)>, v: DepthView, side: OrderSide, n: int) -> bool {
    &&& top.len() == if n < v.len() { n } else { v.len() as int }
    &&& forall|j: int| 0 <= j < top.len() ==> {
        let i = priority_index(v.len(), side, j);
        &&& (#[trigger] top[j]).0 == v[i].0
        &&& top[j].1 == total_remaining(v[i].1)
    }
}

/// `o` is a fresh limit order with these parameters, as `Order::new_limit`
/// makes it (its id and timestamp are left open).
pub open spec fn is_new_limit(
    o: Order,
    side: OrderSide,
    price: Price,
    quantity: Quantity,
    client_id: ClientId,
    time_in_force: TimeInForce,
) -> bool {
    &&& o.price == price
    &&& o.original_quantity == quantity
    &&& o.remaining_quantity == quantity
    &&& o.side == side
    &&& o.client_id == client_id
    &&& o.status == OrderStatus::Active
    &&& o.order_type == OrderType::Limit
    &&& o.time_in_force == time_in_force
    &&& o.executed_quantity == 0
    &&& o.average_execution_price.is_none()
    &&& o.executions@.len() == 0
    &&& o.queue_position.is_none()
}

/// The side an order of `side` trades against.
pub open spec fn opposite(side: OrderSide) -> OrderSide {
    match side {
        OrderSide::Buy => OrderSide::Sell,
        OrderSide::Sell => OrderSide::Buy,
    }
}

/// The first `n` levels of a priority-ordered list, as (price, volume).
fn take_levels(levels: &Vec<(Price, PriceLevelData)>, n: usize) -> (r: Vec<(Price, Quantity)>)
    ensures
        r@.len() == if n < levels@.len() { n as int } else { levels@.len() as int },
        forall|j: int| 0 <= j < r@.len() ==> #[trigger] r@[j] == (levels@[j].0, levels@[j].1.total_quantity),
{
    let count = if n < levels.len() { n } else { levels.len() };
    let mut r: Vec<(Price, Quantity)> = Vec::with_capacity(count);
    let mut j: usize = 0;
    while j < count
        invariant
            count <= levels@.len(),
            j <= count,
            r@.len() == j,
            forall|t: int| 0 <= t < j ==> #[trigger] r@[t] == (levels@[t].0, levels@[t].1.total_quantity),
        decreases count - j,
    {
        r.push((levels[j].0, levels[j].1.total_quantity));
        j = j + 1;
    }
    r
}

/// The market depth rows of the first `max_levels` levels of a
/// priority-ordered list of a side's levels.
fn depth_rows(
    levels: &Vec<(Price, PriceLevelData)>,
    max_levels: usize,
    cumulative: bool,
    Ghost(v): Ghost<DepthView>,
    Ghost(side): Ghost<OrderSide>,
) -> (r: Vec<PriceVolumeLevel>)
    requires
        levels@.len() == v.len(),
        depth_total(v) <= u64::MAX,
        forall|j: int| 0 <= j < levels@.len() ==> {
            let i = priority_index(v.len(), side, j);
            &&& (#[trigger] levels@[j]).0 == v[i].0
            &&& levels@[j].1.total_quantity == total_remaining(v[i].1)
            &&& levels@[j].1.order_count == v[i].1.len()
        },
    ensures
        r@.len() == if max_levels < v.len() { max_levels as int } else { v.len() as int },
        forall|j: int| 0 <= j < r@.len() ==> #[trigger] r@[j] == depth_row(v, side, j, cumulative),
{
    let count = if max_levels < levels.len() { max_levels } else { levels.len() };
    let mut rows: Vec<PriceVolumeLevel> = Vec::with_capacity(count);
    let mut running: u64 = 0;
    let mut j: usize = 0;
    proof {
        assert(best_levels(v, side, 0) =~= Seq::<(Price, Seq<Order>)>::empty());
        assert(depth_total(Seq::<(Price, Seq<Order>)>::empty()) == 0);
    }
    while j < count
        invariant
            levels@.len() == v.len(),
            depth_total(v) <= u64::MAX,
            forall|t: int| 0 <= t < levels@.len() ==> {
                let i = priority_index(v.len(), side, t);
                &&& (#[trigger] levels@[t]).0 == v[i].0
                &&& levels@[t].1.total_quantity == total_remaining(v[i].1)
                &&& levels@[t].1.order_count == v[i].1.len()
            },
            count <= levels@.len(),
            j <= count,
            rows@.len() == j,
            running == depth_total(best_levels(v, side, j as int)),
            forall|t: int| 0 <= t < j ==> #[trigger] rows@[t] == depth_row(v, side, t, cumulative),
        decreases count - j,
    {
        proof { lemma_best_levels_step(v, side, j as int); }
        let price = levels[j].0;
        let data = levels[j].1;
        running = running + data.total_quantity;
        rows.push(PriceVolumeLevel {
            price,
            volume: data.total_quantity,
            order_count: data.order_count,
            cumulative_volume: if cumulative { running } else { 0 },
        });
        j = j + 1;
    }
    rows
}

/// What an order of `order_size` would take from a priority-ordered list of
/// the opposing side's levels, with the total value (price times volume) and
/// volume taken.
fn fill_levels(
    levels: &Vec<(Price, PriceLevelData)>,
    order_size: Quantity,
    Ghost(v): Ghost<DepthView>,
    Ghost(side): Ghost<OrderSide>,
) -> (r: (Vec<ExecutionLevel>, i128, Quantity))
    requires
        levels@.len() == v.len(),
        forall|j: int| 0 <= j < levels@.len() ==> {
            let i = priority_index(v.len(), side, j);
            &&& (#[trigger] levels@[j]).0 == v[i].0
            &&& levels@[j].1.total_quantity == total_remaining(v[i].1)
        },
    ensures
        executions_view(r.0@) == fill_plan(ladder(v, side), order_size as nat),
        r.1 == plan_value(fill_plan(ladder(v, side), order_size as nat)),
        r.2 == plan_volume(fill_plan(ladder(v, side), order_size as nat)),
{
    let ghost l = ladder(v, side);
    let len = levels.len();
    let mut plan: Vec<ExecutionLevel> = Vec::new();
    let mut total_value: i128 = 0;
    let mut remaining: u64 = order_size;
    let mut j: usize = 0;
    proof {
        assert(l.skip(0) =~= l);
        assert(executions_view(plan@) =~= Seq::<(Price, nat)>::empty());
        assert(executions_view(plan@) + fill_plan(l, order_size as nat) =~= fill_plan(l, order_size as nat));
        assert(plan_volume(Seq::<(Price, nat)>::empty()) == 0);
    }
    while j < len
        invariant_except_break
            levels@.len() == v.len(),
            len == v.len(),
            l == ladder(v, side),
            forall|t: int| 0 <= t < levels@.len() ==> {
                let i = priority_index(v.len(), side, t);
                &&& (#[trigger] levels@[t]).0 == v[i].0
                &&& levels@[t].1.total_quantity == total_remaining(v[i].1)
            },
            j <= len,
            executions_view(plan@) + fill_plan(l.skip(j as int), remaining as nat) == fill_plan(l, order_size as nat),
            plan_volume(executions_view(plan@)) + remaining == order_size,
            total_value == plan_value(executions_view(plan@)),
        ensures
            executions_view(plan@) == fill_plan(l, order_size as nat),
            plan_volume(executions_view(plan@)) + remaining == order_size,
            total_value == plan_value(executions_view(plan@)),
        decreases len - j,
    {
        let price = levels[j].0;
        let available = levels[j].1.total_quantity;
        let executed = if remaining < available { remaining } else { available };
        let ghost before = executions_view(plan@);
        proof {
            let rest = l.skip(j as int);
            assert(rest[0] == (price, available as nat));
            assert(rest.drop_first() =~= l.skip(j + 1));
        }
        if executed > 0 {
            proof {
                lemma_plan_value_bound(before);
                assert(-0x8000_0000_0000_0000 * executed <= price * executed <= 0x7fff_ffff_ffff_ffff * executed)
                    by (nonlinear_arith) requires i64::MIN <= price <= i64::MAX, executed >= 0;
                assert(-0x8000_0000_0000_0000 * plan_volume(before) + -0x8000_0000_0000_0000 * executed
                    == -0x8000_0000_0000_0000 * (plan_volume(before) + executed)) by (nonlinear_arith);
                assert(0x7fff_ffff_ffff_ffff * plan_volume(before) + 0x7fff_ffff_ffff_ffff * executed
                    == 0x7fff_ffff_ffff_ffff * (plan_volume(before) + executed)) by (nonlinear_arith);
                assert(0x7fff_ffff_ffff_ffff * (plan_volume(before) + executed) <= 0x7fff_ffff_ffff_ffff * 0xffff_ffff_ffff_ffff)
                    by (nonlinear_arith) requires plan_volume(before) + executed <= 0xffff_ffff_ffff_ffff;
                assert(-0x8000_0000_0000_0000 * (plan_volume(before) + executed) >= -0x8000_0000_0000_0000 * 0xffff_ffff_ffff_ffff)
                    by (nonlinear_arith) requires plan_volume(before) + executed <= 0xffff_ffff_ffff_ffff;
            }
            total_value = total_value + (price as i128) * (executed as i128);
            plan.push(ExecutionLevel { price, executed_volume: executed });
            remaining = remaining - executed;
            proof {
                let after = executions_view(plan@);
                assert(after =~= before.push((price, executed as nat)));
                assert(after.drop_last() =~= before);
                assert(before + seq![(price, executed as nat)] =~= after);
                assert(after + fill_plan(l.skip(j + 1), remaining as nat)
                    =~= before + (seq![(price, executed as nat)] + fill_plan(l.skip(j + 1), remaining as nat)));
            }
            if remaining == 0 {
                proof {
                    assert(fill_plan(l.skip(j + 1), 0) =~= Seq::<(Price, nat)>::empty());
                    assert(executions_view(plan@) + Seq::<(Price, nat)>::empty() =~= executions_view(plan@));
                }
                break;
            }
        }
        j = j + 1;
    }
    proof {
        if j == len {
            assert(l.skip(len as int) =~= Seq::<(Price, nat)>::empty());
            assert(executions_view(plan@) + Seq::<(Price, nat)>::empty() =~= executions_view(plan@));
        }
    }
    let executed_quantity = order_size - remaining;
    (plan, total_value, executed_quantity)
}

/// `post` is `pre` with the fresh limit order of these parameters and id `id`
/// at the back of the level at its price; the other side is unchanged and the
/// update id has gone up by one.
pub open spec fn limit_added(
    pre: OrderBook,
    post: OrderBook,
    id: OrderId,
    side: OrderSide,
    price: Price,
    quantity: Quantity,
    client_id: ClientId,
    time_in_force: TimeInForce,
) -> bool {
    exists|o: Order| {
        &&& #[trigger] is_new_limit(o, side, price, quantity, client_id, time_in_force)
        &&& o.id == id
        &&& depth_contains_id(post.side_view(side), id)
        &&& order_of_id(post.side_view(side), id) == o
        &&& post.side_view(side) == depth_added(pre.side_view(side), o)
        &&& post.side_view(opposite(side)) == pre.side_view(opposite(side))
        &&& post.update_id() == pre.update_id() + 1
    }
}

/// `post` has the same contents and update id as `pre`.
pub open spec fn book_unchanged(pre: OrderBook, post: OrderBook) -> bool {
    &&& post.bids() == pre.bids()
    &&& post.asks() == pre.asks()
    &&& post.update_id() == pre.update_id()
}

/// What adding an admitted limit order with id `id` gives: refused with
/// `Other("Duplicate order id")`, the book unchanged, when an order in the
/// book already has the id; otherwise `Ok(id)` with the order added.
pub open spec fn limit_outcome(
    pre: OrderBook,
    post: OrderBook,
    id: OrderId,
    side: OrderSide,
    price: Price,
    quantity: Quantity,
    client_id: ClientId,
    time_in_force: TimeInForce,
    r: Result<OrderId, OrderBookError>,
) -> bool {
    if pre.book_contains(id) {
        &&& r matches Err(OrderBookError::Other(m)) && m@ == "Duplicate order id"@
        &&& book_unchanged(pre, post)
    } else {
        &&& r == Ok::<OrderId, OrderBookError>(id)
        &&& limit_added(pre, post, id, side, price, quantity, client_id, time_in_force)
    }
}

/// The 128-bit values below `k` number `k`.
pub proof fn lemma_values_below(k: int)
    requires
        0 <= k <= u128::MAX + 1,
    ensures
        Set::new(|x: u128| x < k).finite(),
        Set::new(|x: u128| x < k).len() == k,
    decreases k,
{
    if k == 0 {
        assert(Set::new(|x: u128| x < k) =~= Set::<u128>::empty());
    } else {
        lemma_values_below(k - 1);
        assert(Set::new(|x: u128| x < k) =~= Set::new(|x: u128| x < k - 1).insert((k - 1) as u128));
    }
}

impl OrderBook {
    /// The bid side: price levels in ascending price order, each with its
    /// orders in time priority.
    pub closed spec fn bids(&self) -> DepthView {
        self.bid_side.contents()
    }

    /// The ask side, in the same form as `bids`.
    pub closed spec fn asks(&self) -> DepthView {
        self.ask_side.contents()
    }

    /// The side that holds orders of `side`.
    pub open spec fn side_view(&self, side: OrderSide) -> DepthView {
        match side {
            OrderSide::Buy => self.bids(),
            OrderSide::Sell => self.asks(),
        }
    }

    /// The id of the last update.
    pub closed spec fn update_id(&self) -> u64 {
        self.last_update_id
    }

    /// The configuration.
    pub closed spec fn book_config(&self) -> OrderBookConfig {
        self.config
    }

    /// The instrument's symbol.
    pub closed spec fn symbol_view(&self) -> Seq<char> {
        self.symbol@
    }

    /// The exchange's id.
    pub closed spec fn exchange_view(&self) -> Seq<char> {
        self.exchange_id@
    }

    /// When the book last changed.
    pub closed spec fn updated_at(&self) -> Timestamp {
        self.timestamp
    }

    /// The summary data of each level of the side that holds orders of
    /// `side`, in ascending price order.
    pub closed spec fn side_records(&self, side: OrderSide) -> Seq<PriceLevelData> {
        match side {
            OrderSide::Buy => self.bid_side.level_records(),
            OrderSide::Sell => self.ask_side.level_records(),
        }
    }

    /// Some order in the book has the id.
    pub open spec fn book_contains(&self, id: OrderId) -> bool {
        depth_contains_id(self.bids(), id) || depth_contains_id(self.asks(), id)
    }

    /// The number of orders in the book.
    pub open spec fn book_orders(&self) -> nat {
        order_total(self.bids()) + order_total(self.asks())
    }

    /// The book has no room for an order of `side` at `price`: the price is
    /// not yet a level and the book holds as many levels as its configuration
    /// allows, or the book holds as many orders as it allows.
    pub open spec fn is_full_for(&self, side: OrderSide, price: Price) -> bool {
        ||| !has_level(self.side_view(side), price) && self.bids().len() + self.asks().len() >= self.book_config().max_levels
        ||| self.book_orders() >= self.book_config().max_total_orders
    }

    /// The level at `price` has no room for another order of `side`: it holds
    /// as many orders as the configuration allows a level (or, whatever the
    /// configuration, more than half the machine's address range).
    pub open spec fn is_level_full(&self, side: OrderSide, price: Price) -> bool {
        &&& has_level(self.side_view(side), price)
        &&& {
            ||| level_size(self.side_view(side), price) >= self.book_config().max_orders_per_level
            ||| level_size(self.side_view(side), price) > usize::MAX / 2
        }
    }

    /// The size passes the configuration's bounds and the book and the level
    /// have room for an order of `side` at `price`.
    pub open spec fn admits(&self, side: OrderSide, price: Price, quantity: Quantity) -> bool {
        &&& self.book_config().min_order_size <= quantity <= self.book_config().max_order_size
        &&& !self.is_full_for(side, price)
        &&& !self.is_level_full(side, price)
    }

    /// Internal consistency: both sides well formed, bids on the bid side,
    /// asks on the ask side, and no id on both.
    pub closed spec fn wf(&self) -> bool {
        &&& self.bid_side.well_formed()
        &&& self.bid_side.side_kind() == OrderSide::Buy
        &&& self.ask_side.well_formed()
        &&& self.ask_side.side_kind() == OrderSide::Sell
        &&& forall|id: OrderId| !(#[trigger] depth_contains_id(self.bids(), id) && depth_contains_id(self.asks(), id))
        &&& self.bids().len() + self.asks().len() <= usize::MAX
    }

    /// The contents of a well-formed book are well formed.
    pub proof fn lemma_wf(&self)
        requires
            self.wf(),
        ensures
            crate::side::depth_wf(self.bids(), OrderSide::Buy),
            crate::side::depth_wf(self.asks(), OrderSide::Sell),
            depth_total(self.bids()) <= u64::MAX,
            depth_total(self.asks()) <= u64::MAX,
            forall|id: OrderId| !(#[trigger] depth_contains_id(self.bids(), id) && depth_contains_id(self.asks(), id)),
            self.bids().len() + self.asks().len() <= usize::MAX,
            forall|i: int| 0 <= i < self.bids().len() ==> (#[trigger] self.bids()[i]).1.len() <= usize::MAX,
            forall|i: int| 0 <= i < self.asks().len() ==> (#[trigger] self.asks()[i]).1.len() <= usize::MAX,
    {
        self.bid_side.lemma_contents_wf();
        self.ask_side.lemma_contents_wf();
    }

    /// Create a new, empty order book.
    pub fn new(symbol: String, exchange_id: String, config: OrderBookConfig) -> (b: Self)
        requires
            config.buffer_size <= usize::MAX / 2 + 1,
        ensures
            b.wf(),
            b.bids() == Seq::<(Price, Seq<Order>)>::empty(),
            b.asks() == Seq::<(Price, Seq<Order>)>::empty(),
            b.update_id() == 0,
            b.book_config() == config,
            b.symbol_view() == symbol@,
            b.exchange_view() == exchange_id@,
    {
        let b = OrderBook {
            symbol,
            exchange_id,
            bid_side: BidSide::new(config.buffer_size),
            ask_side: AskSide::new(config.buffer_size),
            last_update_id: 0,
            timestamp: now_nanos(),
            config,
        };
        b
    }

    /// Check an order: its size against the configuration, that the book has
    /// room for it, and that the level at its price has room for it.
    fn validate_order(&self, side: OrderSide, price: Price, quantity: Quantity) -> (r: Result<(), OrderBookError>)
        requires
            self.wf(),
        ensures
            quantity < self.book_config().min_order_size ==> (r matches Err(OrderBookError::InvalidOrderSize(m))
                && m@ == "Order size too small"@),
            self.book_config().min_order_size <= quantity && quantity > self.book_config().max_order_size
                ==> (r matches Err(OrderBookError::InvalidOrderSize(m)) && m@ == "Order size too large"@),
            self.book_config().min_order_size <= quantity <= self.book_config().max_order_size
                && self.is_full_for(side, price) ==> r matches Err(OrderBookError::OrderBookFull),
            self.book_config().min_order_size <= quantity <= self.book_config().max_order_size
                && !self.is_full_for(side, price) && self.is_level_full(side, price)
                ==> r matches Err(OrderBookError::PriceLevelFull),
            self.admits(side, price, quantity) ==> r is Ok,
            r is Ok ==> self.admits(side, price, quantity),
    {
        proof { self.lemma_wf(); }
        if quantity < self.config.min_order_size {
            return Err(OrderBookError::InvalidOrderSize("Order size too small".to_string()));
        }
        if quantity > self.config.max_order_size {
            return Err(OrderBookError::InvalidOrderSize("Order size too large".to_string()));
        }
        let level = match side {
            OrderSide::Buy => self.bid_side.get_price_level(price),
            OrderSide::Sell => self.ask_side.get_price_level(price),
        };
        let bid_depth = self.bid_side.depth();
        let ask_depth = self.ask_side.depth();
        let levels_full = bid_depth >= self.config.max_levels || ask_depth >= self.config.max_levels - bid_depth;
        let bid_orders = self.bid_side.book_side().order_count();
        let ask_orders = self.ask_side.book_side().order_count();
        let orders_full = bid_orders >= self.config.max_total_orders
            || ask_orders >= self.config.max_total_orders - bid_orders;
        if (level.is_none() && levels_full) || orders_full {
            return Err(OrderBookError::OrderBookFull);
        }
        match level {
            Some(data) => {
                if data.order_count >= self.config.max_orders_per_level || data.order_count > usize::MAX / 2 {
                    return Err(OrderBookError::PriceLevelFull);
                }
            },
            None => {},
        }
        Ok(())
    }

    /// Add a limit order with the given id to the book. The order is checked
    /// first: its size against the configuration, then that the book has
    /// room for it (a level for a new price, and an order more), then that
    /// the level at its price has room for it. An order whose id is already
    /// in the book is refused with `Other`. On success the order joins the
    /// back of the level at its price and the update id goes up by one.
    pub fn add_limit_order_with_id(
        &mut self,
        id: OrderId,
        side: OrderSide,
        price: Price,
        quantity: Quantity,
        client_id: ClientId,
        time_in_force: TimeInForce,
    ) -> (r: Result<OrderId, OrderBookError>)
        requires
            old(self).wf(),
            old(self).update_id() < u64::MAX,
            depth_total(old(self).side_view(side)) + quantity <= u64::MAX,
        ensures
            final(self).wf(),
            final(self).book_config() == old(self).book_config(),
            final(self).symbol_view() == old(self).symbol_view(),
            final(self).exchange_view() == old(self).exchange_view(),
            quantity < old(self).book_config().min_order_size ==> (r matches Err(OrderBookError::InvalidOrderSize(m))
                && m@ == "Order size too small"@),
            old(self).book_config().min_order_size <= quantity && quantity > old(self).book_config().max_order_size
                ==> (r matches Err(OrderBookError::InvalidOrderSize(m)) && m@ == "Order size too large"@),
            old(self).book_config().min_order_size <= quantity <= old(self).book_config().max_order_size
                && old(self).is_full_for(side, price) ==> r matches Err(OrderBookError::OrderBookFull),
            old(self).book_config().min_order_size <= quantity <= old(self).book_config().max_order_size
                && !old(self).is_full_for(side, price) && old(self).is_level_full(side, price)
                ==> r matches Err(OrderBookError::PriceLevelFull),
            old(self).admits(side, price, quantity) ==> limit_outcome(
                *old(self),
                *final(self),
                id,
                side,
                price,
                quantity,
                client_id,
                time_in_force,
                r,
            ),
            !old(self).admits(side, price, quantity) ==> book_unchanged(*old(self), *final(self)),
    {
        proof { self.lemma_wf(); }
        match self.validate_order(side, price, quantity) {
            Ok(()) => {},
            Err(e) => return Err(e),
        }
        let taken = self.bid_side.get_order(&id).is_some() || self.ask_side.get_order(&id).is_some();
        if taken {
            return Err(OrderBookError::Other("Duplicate order id".to_string()));
        }
        let mut order = Order::new_limit(side, price, quantity, client_id, time_in_force);
        order.id = id;
        let ghost o = order;
        let ghost old_bids = self.bids();
        let ghost old_asks = self.asks();
        proof {
            assert(is_new_limit(o, side, price, quantity, client_id, time_in_force));
        }
        match side {
            OrderSide::Buy => {
                proof {
                    lemma_added(old_bids, OrderSide::Buy, o);
                    lemma_added_shape(old_bids, OrderSide::Buy, o);
                    lemma_add_then_remove(old_bids, OrderSide::Buy, o);
                }
                self.bid_side.add_order(order);
            },
            OrderSide::Sell => {
                proof {
                    lemma_added(old_asks, OrderSide::Sell, o);
                    lemma_added_shape(old_asks, OrderSide::Sell, o);
                    lemma_add_then_remove(old_asks, OrderSide::Sell, o);
                }
                self.ask_side.add_order(order);
            },
        }
        self.timestamp = now_nanos();
        self.last_update_id = self.last_update_id + 1;
        proof {
            assert forall|x: OrderId| !(#[trigger] depth_contains_id(self.bids(), x) && depth_contains_id(self.asks(), x)) by {
                if x != o.id {
                    assert(!(depth_contains_id(old_bids, x) && depth_contains_id(old_asks, x)));
                }
            }
        }
        Ok(id)
    }

    /// The ids (as 128-bit values) of the orders in the book.
    pub open spec fn book_ids(&self) -> Set<u128> {
        depth_ids(self.bids()) + depth_ids(self.asks())
    }

    /// A well-formed book has as many ids as orders.
    proof fn lemma_book_ids(&self)
        requires
            self.wf(),
        ensures
            self.book_ids().finite(),
            self.book_ids().len() == self.book_orders(),
            forall|x: u128| #[trigger] self.book_ids().contains(x) <==> self.book_contains(OrderId(x)),
    {
        self.lemma_wf();
        lemma_order_total(self.bids(), OrderSide::Buy);
        lemma_order_total(self.asks(), OrderSide::Sell);
        assert(depth_ids(self.bids()).disjoint(depth_ids(self.asks()))) by {
            assert forall|x: u128| depth_ids(self.bids()).contains(x) implies !depth_ids(self.asks()).contains(x) by {
                assert(!(depth_contains_id(self.bids(), OrderId(x)) && depth_contains_id(self.asks(), OrderId(x))));
            }
        }
        vstd::set_lib::lemma_set_disjoint_lens(depth_ids(self.bids()), depth_ids(self.asks()));
    }

    /// An id that no order in the book has: the smallest such 128-bit value.
    fn free_id(&self) -> (id: OrderId)
        requires
            self.wf(),
        ensures
            !self.book_contains(id),
    {
        let bid_orders = self.bid_side.book_side().order_count();
        let ask_orders = self.ask_side.book_side().order_count();
        proof { self.lemma_book_ids(); }
        let mut c: u128 = 0;
        while self.get_order(&OrderId(c)).is_some()
            invariant
                self.wf(),
                self.book_ids().finite(),
                self.book_ids().len() == self.book_orders(),
                forall|x: u128| #[trigger] self.book_ids().contains(x) <==> self.book_contains(OrderId(x)),
                self.book_orders() <= bid_orders + ask_orders,
                bid_orders <= usize::MAX,
                ask_orders <= usize::MAX,
                forall|j: u128| j < c ==> #[trigger] self.book_contains(OrderId(j)),
            decreases self.book_orders() - c,
        {
            let ghost below = Set::new(|x: u128| x <= c);
            proof {
                lemma_values_below(c as int + 1);
                assert(below =~= Set::new(|x: u128| x < c as int + 1));
                assert(below.subset_of(self.book_ids())) by {
                    assert forall|x: u128| below.contains(x) implies self.book_ids().contains(x) by {
                        if x < c {
                            assert(self.book_contains(OrderId(x)));
                        }
                    }
                }
                vstd::set_lib::lemma_len_subset(below, self.book_ids());
            }
            c = c + 1;
        }
        OrderId(c)
    }

    /// Add a limit order to the book. It gets a new random id (a version-4
    /// UUID); should an order in the book already have that id, it gets
    /// instead the smallest id that no order has. Otherwise it is checked and
    /// added as `add_limit_order_with_id` does.
    pub fn add_limit_order(
        &mut self,
        side: OrderSide,
        price: Price,
        quantity: Quantity,
        client_id: ClientId,
        time_in_force: TimeInForce,
    ) -> (r: Result<OrderId, OrderBookError>)
        requires
            old(self).wf(),
            old(self).update_id() < u64::MAX,
            depth_total(old(self).side_view(side)) + quantity <= u64::MAX,
        ensures
            final(self).wf(),
            final(self).book_config() == old(self).book_config(),
            final(self).symbol_view() == old(self).symbol_view(),
            final(self).exchange_view() == old(self).exchange_view(),
            quantity < old(self).book_config().min_order_size ==> (r matches Err(OrderBookError::InvalidOrderSize(m))
                && m@ == "Order size too small"@),
            old(self).book_config().min_order_size <= quantity && quantity > old(self).book_config().max_order_size
                ==> (r matches Err(OrderBookError::InvalidOrderSize(m)) && m@ == "Order size too large"@),
            old(self).book_config().min_order_size <= quantity <= old(self).book_config().max_order_size
                && old(self).is_full_for(side, price) ==> r matches Err(OrderBookError::OrderBookFull),
            old(self).book_config().min_order_size <= quantity <= old(self).book_config().max_order_size
                && !old(self).is_full_for(side, price) && old(self).is_level_full(side, price)
                ==> r matches Err(OrderBookError::PriceLevelFull),
            old(self).admits(side, price, quantity) ==> exists|x: OrderId| {
                &&& !old(self).book_contains(x)
                &&& #[trigger] limit_added(*old(self), *final(self), x, side, price, quantity, client_id, time_in_force)
                &&& r == Ok::<OrderId, OrderBookError>(x)
            },
            old(self).admits(side, price, quantity) ==> exists|drawn: OrderId|
                #[trigger] is_v4_uuid(drawn.0) && (!old(self).book_contains(drawn) ==> r == Ok::<OrderId, OrderBookError>(drawn)),
            !old(self).admits(side, price, quantity) ==> book_unchanged(*old(self), *final(self)),
    {
        let drawn = OrderId::new();
        let id = if self.get_order(&drawn).is_some() {
            self.free_id()
        } else {
            drawn
        };
        let r = self.add_limit_order_with_id(id, side, price, quantity, client_id, time_in_force);
        proof {
            if old(self).admits(side, price, quantity) {
                assert(!old(self).book_contains(id));
                assert(limit_added(*old(self), *self, id, side, price, quantity, client_id, time_in_force));
                assert(is_v4_uuid(drawn.0));
            }
        }
        r
    }

    /// Cancel an order: take it out of whichever side holds it (the bid side
    /// is looked at first) and hand it back; the update id goes up by one.
    pub fn cancel_order(&mut self, order_id: &OrderId) -> (r: Result<Order, OrderBookError>)
        requires
            old(self).wf(),
            old(self).book_contains(*order_id) ==> old(self).update_id() < u64::MAX,
        ensures
            final(self).wf(),
            final(self).book_config() == old(self).book_config(),
            final(self).symbol_view() == old(self).symbol_view(),
            final(self).exchange_view() == old(self).exchange_view(),
            if depth_contains_id(old(self).bids(), *order_id) {
                &&& r == Ok::<Order, OrderBookError>(order_of_id(old(self).bids(), *order_id))
                &&& final(self).bids() == depth_removed(old(self).bids(), *order_id)
                &&& final(self).asks() == old(self).asks()
                &&& final(self).update_id() == old(self).update_id() + 1
            } else if depth_contains_id(old(self).asks(), *order_id) {
                &&& r == Ok::<Order, OrderBookError>(order_of_id(old(self).asks(), *order_id))
                &&& final(self).bids() == old(self).bids()
                &&& final(self).asks() == depth_removed(old(self).asks(), *order_id)
                &&& final(self).update_id() == old(self).update_id() + 1
            } else {
                &&& r matches Err(OrderBookError::OrderNotFound)
                &&& final(self).bids() == old(self).bids()
                &&& final(self).asks() == old(self).asks()
                &&& final(self).update_id() == old(self).update_id()
            },
    {
        proof { self.lemma_wf(); }
        let ghost old_bids = self.bids();
        let ghost old_asks = self.asks();
        proof {
            if depth_contains_id(old_bids, *order_id) {
                lemma_removed(old_bids, OrderSide::Buy, *order_id);
            }
        }
        if let Some(order) = self.bid_side.remove_order(order_id) {
            self.timestamp = now_nanos();
            self.last_update_id = self.last_update_id + 1;
            proof {
                assert forall|id: OrderId| !(#[trigger] depth_contains_id(self.bids(), id) && depth_contains_id(self.asks(), id)) by {
                    assert(!(depth_contains_id(old_bids, id) && depth_contains_id(old_asks, id)));
                }
            }
            return Ok(order);
        }
        proof {
            if depth_contains_id(old_asks, *order_id) {
                lemma_removed(old_asks, OrderSide::Sell, *order_id);
            }
        }
        if let Some(order) = self.ask_side.remove_order(order_id) {
            self.timestamp = now_nanos();
            self.last_update_id = self.last_update_id + 1;
            proof {
                assert forall|id: OrderId| !(#[trigger] depth_contains_id(self.bids(), id) && depth_contains_id(self.asks(), id)) by {
                    assert(!(depth_contains_id(old_bids, id) && depth_contains_id(old_asks, id)));
                }
            }
            return Ok(order);
        }
        Err(OrderBookError::OrderNotFound)
    }

    /// The id of the last update.
    pub fn last_update_id(&self) -> (r: u64)
        ensures
            r == self.update_id(),
    {
        self.last_update_id
    }

    /// The total volume resting on the side that holds orders of `side`.
    pub fn side_volume(&self, side: OrderSide) -> (q: Quantity)
        requires
            self.wf(),
        ensures
            q == depth_total(self.side_view(side)),
    {
        match side {
            OrderSide::Buy => self.bid_side.total_volume(),
            OrderSide::Sell => self.ask_side.total_volume(),
        }
    }

    /// Get the best bid price: the highest price on the bid side.
    pub fn best_bid(&self) -> (p: Option<Price>)
        requires
            self.wf(),
        ensures
            p == depth_best_price(self.bids(), OrderSide::Buy),
    {
        self.bid_side.best_price()
    }

    /// Get the best ask price: the lowest price on the ask side.
    pub fn best_ask(&self) -> (p: Option<Price>)
        requires
            self.wf(),
        ensures
            p == depth_best_price(self.asks(), OrderSide::Sell),
    {
        self.ask_side.best_price()
    }

    /// Take the next bid order for matching: the oldest order at the best
    /// bid leaves the book, and the update id goes up by one.
    pub fn next_best_bid(&mut self) -> (r: Option<Order>)
        requires
            old(self).wf(),
            old(self).bids().len() > 0 ==> old(self).update_id() < u64::MAX,
        ensures
            final(self).wf(),
            final(self).book_config() == old(self).book_config(),
            final(self).symbol_view() == old(self).symbol_view(),
            final(self).exchange_view() == old(self).exchange_view(),
            final(self).asks() == old(self).asks(),
            if old(self).bids().len() > 0 {
                let v = old(self).bids();
                let i = best_index(v, OrderSide::Buy);
                &&& r == Some(v[i].1[0])
                &&& final(self).bids() == depth_removed_at(v, i, 0)
                &&& final(self).update_id() == old(self).update_id() + 1
            } else {
                &&& r is None
                &&& final(self).bids() == old(self).bids()
                &&& final(self).update_id() == old(self).update_id()
            },
    {
        proof { self.lemma_wf(); }
        let ghost old_bids = self.bids();
        let ghost old_asks = self.asks();
        proof {
            if old_bids.len() > 0 {
                lemma_removed_at(old_bids, OrderSide::Buy, best_index(old_bids, OrderSide::Buy), 0);
            }
        }
        let order = self.bid_side.next_best_order();
        if order.is_some() {
            self.timestamp = now_nanos();
            self.last_update_id = self.last_update_id + 1;
        }
        proof {
            assert forall|id: OrderId| !(#[trigger] depth_contains_id(self.bids(), id) && depth_contains_id(self.asks(), id)) by {
                assert(!(depth_contains_id(old_bids, id) && depth_contains_id(old_asks, id)));
            }
        }
        order
    }

    /// Take the next ask order for matching: the oldest order at the best
    /// ask leaves the book, and the update id goes up by one.
    pub fn next_best_ask(&mut self) -> (r: Option<Order>)
        requires
            old(self).wf(),
            old(self).asks().len() > 0 ==> old(self).update_id() < u64::MAX,
        ensures
            final(self).wf(),
            final(self).book_config() == old(self).book_config(),
            final(self).symbol_view() == old(self).symbol_view(),
            final(self).exchange_view() == old(self).exchange_view(),
            final(self).bids() == old(self).bids(),
            if old(self).asks().len() > 0 {
                let v = old(self).asks();
                let i = best_index(v, OrderSide::Sell);
                &&& r == Some(v[i].1[0])
                &&& final(self).asks() == depth_removed_at(v, i, 0)
                &&& final(self).update_id() == old(self).update_id() + 1
            } else {
                &&& r is None
                &&& final(self).asks() == old(self).asks()
                &&& final(self).update_id() == old(self).update_id()
            },
    {
        proof { self.lemma_wf(); }
        let ghost old_bids = self.bids();
        let ghost old_asks = self.asks();
        proof {
            if old_asks.len() > 0 {
                lemma_removed_at(old_asks, OrderSide::Sell, best_index(old_asks, OrderSide::Sell), 0);
            }
        }
        let order = self.ask_side.next_best_order();
        if order.is_some() {
            self.timestamp = now_nanos();
            self.last_update_id = self.last_update_id + 1;
        }
        proof {
            assert forall|id: OrderId| !(#[trigger] depth_contains_id(self.bids(), id) && depth_contains_id(self.asks(), id)) by {
                assert(!(depth_contains_id(old_bids, id) && depth_contains_id(old_asks, id)));
            }
        }
        order
    }

    /// Get the spread: best ask minus best bid, when both sides have orders.
    pub fn spread(&self) -> (r: Option<Price>)
        requires
            self.wf(),
            self.bids().len() > 0 && self.asks().len() > 0 ==> i64::MIN <= depth_best_price(
                self.asks(),
                OrderSide::Sell,
            )->0 - depth_best_price(self.bids(), OrderSide::Buy)->0 <= i64::MAX,
        ensures
            r == match (depth_best_price(self.asks(), OrderSide::Sell), depth_best_price(self.bids(), OrderSide::Buy)) {
                (Some(ask), Some(bid)) => Some((ask - bid) as i64),
                _ => None,
            },
    {
        match (self.best_ask(), self.best_bid()) {
            (Some(ask), Some(bid)) => Some(ask - bid),
            _ => None,
        }
    }

    /// Get an order by id, from whichever side holds it (a copy).
    pub fn get_order(&self, order_id: &OrderId) -> (r: Option<Order>)
        requires
            self.wf(),
        ensures
            if depth_contains_id(self.bids(), *order_id) {
                r matches Some(o) && o@ == order_of_id(self.bids(), *order_id)@
            } else if depth_contains_id(self.asks(), *order_id) {
                r matches Some(o) && o@ == order_of_id(self.asks(), *order_id)@
            } else {
                r is None
            },
    {
        match self.bid_side.get_order(order_id) {
            Some(o) => Some(o),
            None => self.ask_side.get_order(order_id),
        }
    }

    /// Get the top `n` bid levels, best (highest) price first, as (price,
    /// total volume).
    pub fn top_bids(&self, n: usize) -> (r: Vec<(Price, Quantity)>)
        requires
            self.wf(),
        ensures
            r@.len() == if n < self.bids().len() { n as int } else { self.bids().len() as int },
            forall|j: int| 0 <= j < r@.len() ==> {
                let i = priority_index(self.bids().len(), OrderSide::Buy, j);
                &&& (#[trigger] r@[j]).0 == self.bids()[i].0
                &&& r@[j].1 == total_remaining(self.bids()[i].1)
            },
    {
        let levels = self.bid_side.price_levels();
        take_levels(&levels, n)
    }

    /// Get the top `n` ask levels, best (lowest) price first, as (price,
    /// total volume).
    pub fn top_asks(&self, n: usize) -> (r: Vec<(Price, Quantity)>)
        requires
            self.wf(),
        ensures
            r@.len() == if n < self.asks().len() { n as int } else { self.asks().len() as int },
            forall|j: int| 0 <= j < r@.len() ==> {
                let i = priority_index(self.asks().len(), OrderSide::Sell, j);
                &&& (#[trigger] r@[j]).0 == self.asks()[i].0
                &&& r@[j].1 == total_remaining(self.asks()[i].1)
            },
    {
        let levels = self.ask_side.price_levels();
        take_levels(&levels, n)
    }

    /// Market depth: for each side, the first `max_levels` levels in priority
    /// order with their volume, order count and (when asked for) the volume
    /// of that level and all better ones; with both sides' total volumes.
    /// Without options the defaults apply.
    pub fn get_market_depth(&self, options: Option<MarketDepthOptions>) -> (d: MarketDepthData)
        requires
            self.wf(),
        ensures
            ({
                let o = match options {
                    Some(o) => o,
                    None => default_depth_options(),
                };
                let bids = self.bids();
                let asks = self.asks();
                &&& d.timestamp == self.updated_at()
                &&& d.total_bid_volume == depth_total(bids)
                &&& d.total_ask_volume == depth_total(asks)
                &&& d.bids@.len() == if o.max_levels < bids.len() { o.max_levels as int } else { bids.len() as int }
                &&& d.asks@.len() == if o.max_levels < asks.len() { o.max_levels as int } else { asks.len() as int }
                &&& forall|j: int| 0 <= j < d.bids@.len() ==> #[trigger] d.bids@[j] == depth_row(
                    bids,
                    OrderSide::Buy,
                    j,
                    o.calculate_cumulative,
                )
                &&& forall|j: int| 0 <= j < d.asks@.len() ==> #[trigger] d.asks@[j] == depth_row(
                    asks,
                    OrderSide::Sell,
                    j,
                    o.calculate_cumulative,
                )
            }),
    {
        proof { self.lemma_wf(); }
        let options = match options {
            Some(o) => o,
            None => MarketDepthOptions::default(),
        };
        let bid_levels = self.bid_side.price_levels();
        let ask_levels = self.ask_side.price_levels();
        let bids = depth_rows(
            &bid_levels,
            options.max_levels,
            options.calculate_cumulative,
            Ghost(self.bids()),
            Ghost(OrderSide::Buy),
        );
        let asks = depth_rows(
            &ask_levels,
            options.max_levels,
            options.calculate_cumulative,
            Ghost(self.asks()),
            Ghost(OrderSide::Sell),
        );
        MarketDepthData {
            timestamp: self.timestamp,
            bids,
            asks,
            total_bid_volume: self.bid_side.total_volume(),
            total_ask_volume: self.ask_side.total_volume(),
        }
    }

    /// What a market order of `order_size` on `side` would take from the
    /// opposing side: level by level from the best price, the smaller of what
    /// is left of the order and the level's volume, until the order is filled
    /// or the levels run out; with the total value and volume taken and the
    /// opposing side's best price.
    pub fn calculate_market_impact(&self, side: OrderSide, order_size: Quantity) -> (m: MarketImpactData)
        requires
            self.wf(),
        ensures
            ({
                let v = self.side_view(opposite(side));
                let plan = fill_plan(ladder(v, opposite(side)), order_size as nat);
                &&& m.order_size == order_size
                &&& m.side == side
                &&& executions_view(m.execution_levels@) == plan
                &&& m.total_value == plan_value(plan)
                &&& m.executed_quantity == plan_volume(plan)
                &&& m.base_price == depth_best_price(v, opposite(side))
            }),
    {
        let (levels, base_price) = match side {
            OrderSide::Buy => (self.ask_side.price_levels(), self.best_ask()),
            OrderSide::Sell => (self.bid_side.price_levels(), self.best_bid()),
        };
        let (execution_levels, total_value, executed_quantity) = fill_levels(
            &levels,
            order_size,
            Ghost(self.side_view(opposite(side))),
            Ghost(opposite(side)),
        );
        MarketImpactData { order_size, side, executed_quantity, total_value, base_price, execution_levels }
    }

    /// Volume and order counts of the bid levels priced at or above
    /// `min_price` and of the ask levels priced at or below `max_price`, with
    /// each side's total volume.
    pub fn liquidity_in_range(&self, min_price: Price, max_price: Price) -> (l: LiquidityData)
        requires
            self.wf(),
        ensures
            l.bid_volume_in_range == volume_in_range(self.bids(), min_price, i64::MAX),
            l.ask_volume_in_range == volume_in_range(self.asks(), i64::MIN, max_price),
            l.bid_orders_in_range == orders_in_range(self.bids(), min_price, i64::MAX),
            l.ask_orders_in_range == orders_in_range(self.asks(), i64::MIN, max_price),
            l.total_bid_volume == depth_total(self.bids()),
            l.total_ask_volume == depth_total(self.asks()),
    {
        let bid = self.bid_side.book_side();
        let ask = self.ask_side.book_side();
        LiquidityData {
            bid_volume_in_range: bid.total_volume_in_range(min_price, i64::MAX),
            ask_volume_in_range: ask.total_volume_in_range(i64::MIN, max_price),
            bid_orders_in_range: bid.orders_in_price_range(min_price, i64::MAX),
            ask_orders_in_range: ask.orders_in_price_range(i64::MIN, max_price),
            total_bid_volume: self.bid_side.total_volume(),
            total_ask_volume: self.ask_side.total_volume(),
        }
    }

    /// A summary of the book: both sides, the top ten levels of each, and the
    /// configuration.
    pub fn to_data(&self) -> (d: OrderBookData)
        requires
            self.wf(),
            span_fits(self.bids()),
            span_fits(self.asks()),
        ensures
            d.symbol@ == self.symbol_view(),
            d.exchange_id@ == self.exchange_view(),
            d.timestamp == self.updated_at(),
            d.last_update_id == self.update_id(),
            side_summary(d.bid_side, self.bids(), self.side_records(OrderSide::Buy), OrderSide::Buy),
            side_summary(d.ask_side, self.asks(), self.side_records(OrderSide::Sell), OrderSide::Sell),
            d.market_data.timestamp == self.updated_at(),
            d.market_data.last_update_id == self.update_id(),
            top_levels(d.market_data.bids@, self.bids(), OrderSide::Buy, 10),
            top_levels(d.market_data.asks@, self.asks(), OrderSide::Sell, 10),
            d.config == self.book_config(),
            d.order_depth == self.bids().len() + self.asks().len(),
    {
        proof { self.lemma_wf(); }
        let market_data = MarketDataSnapshot {
            timestamp: self.timestamp,
            last_update_id: self.last_update_id,
            bids: self.top_bids(10),
            asks: self.top_asks(10),
        };
        let bid_side = self.bid_side.book_side().to_data();
        let ask_side = self.ask_side.book_side().to_data();
        let order_depth = bid_side.depth + ask_side.depth;
        OrderBookData {
            symbol: self.symbol.clone(),
            exchange_id: self.exchange_id.clone(),
            timestamp: self.timestamp,
            last_update_id: self.last_update_id,
            bid_side,
            ask_side,
            market_data,
            config: self.config,
            order_depth,
        }
    }
}

/// An order that joins the book under a fresh id and is then cancelled by
/// that id comes back as it went in, and leaves its side as it was. (The
/// cancel finds it on the right side: no id is on both.)
pub proof fn lemma_add_then_cancel(book: OrderBook, side: OrderSide, o: Order)
    requires
        book.wf(),
        o.side == side,
        !book.book_contains(o.id),
    ensures
        depth_contains_id(depth_added(book.side_view(side), o), o.id),
        side == OrderSide::Sell ==> !depth_contains_id(book.bids(), o.id),
        order_of_id(depth_added(book.side_view(side), o), o.id) == o,
        depth_removed(depth_added(book.side_view(side), o), o.id) == book.side_view(side),
{
    book.lemma_wf();
    match side {
        OrderSide::Buy => {
            lemma_added(book.bids(), side, o);
            lemma_add_then_remove(book.bids(), side, o);
        },
        OrderSide::Sell => {
            lemma_added(book.asks(), side, o);
            lemma_add_then_remove(book.asks(), side, o);
        },
    }
}

/// The listed levels as (price, volume).
pub open spec fn listed_volumes(s: Seq<(Price, PriceLevelData)>) -> Seq<(Price, nat)> {
    s.map_values(|e: (Price, PriceLevelData)| (e.0, e.1.total_quantity as nat))
}

/// The number of orders over the listed levels.
pub open spec fn listed_orders(s: Seq<(Price, PriceLevelData)>) -> nat
    decreases s.len(),
{
    if s.len() == 0 {
        0
    } else {
        s[0].1.order_count as nat + listed_orders(s.drop_first())
    }
}

/// The orders of all levels but the first, and the first's.
proof fn lemma_order_total_first(v: DepthView)
    requires
        v.len() > 0,
    ensures
        order_total(v) == v[0].1.len() + order_total(v.drop_first()),
    decreases v.len(),
{
    if v.len() > 1 {
        lemma_order_total_first(v.drop_last());
        assert(v.drop_last().drop_first() =~= v.drop_first().drop_last());
    } else {
        assert(v.drop_first() =~= Seq::<(Price, Seq<Order>)>::empty());
        assert(v.drop_last() =~= Seq::<(Price, Seq<Order>)>::empty());
    }
}

/// Levels listed in priority order with their order counts hold all the
/// side's orders.
proof fn lemma_listed_orders(s: Seq<(Price, PriceLevelData)>, v: DepthView, side: OrderSide)
    requires
        s.len() == v.len(),
        forall|j: int| 0 <= j < s.len() ==> (#[trigger] s[j]).1.order_count == v[priority_index(v.len(), side, j)].1.len(),
    ensures
        listed_orders(s) == order_total(v),
    decreases v.len(),
{
    if v.len() > 0 {
        match side {
            OrderSide::Buy => {
                let w = v.drop_last();
                assert forall|j: int| 0 <= j < s.drop_first().len() implies
                    (#[trigger] s.drop_first()[j]).1.order_count == w[priority_index(w.len(), side, j)].1.len() by {
                    assert(s.drop_first()[j] == s[j + 1]);
                }
                lemma_listed_orders(s.drop_first(), w, side);
            },
            OrderSide::Sell => {
                let w = v.drop_first();
                assert forall|j: int| 0 <= j < s.drop_first().len() implies
                    (#[trigger] s.drop_first()[j]).1.order_count == w[priority_index(w.len(), side, j)].1.len() by {
                    assert(s.drop_first()[j] == s[j + 1]);
                }
                lemma_listed_orders(s.drop_first(), w, side);
                lemma_order_total_first(v);
            },
        }
    }
}

/// A side's summary lists levels whose volumes add up to the side's total
/// volume and whose order counts add up to its order count.
pub proof fn lemma_summary_sums(d: SideData, v: DepthView, records: Seq<PriceLevelData>, side: OrderSide)
    requires
        side_summary(d, v, records, side),
    ensures
        plan_volume(listed_volumes(d.price_levels@)) == d.total_volume,
        listed_orders(d.price_levels@) == d.statistics.order_count,
{
    let pl = d.price_levels@;
    assert(listed_volumes(pl) =~= ladder(v, side));
    lemma_ladder_volume(v, side);
    assert forall|j: int| 0 <= j < pl.len() implies (#[trigger] pl[j]).1.order_count == v[priority_index(v.len(), side, j)].1.len() by {
        assert(pl[j].1.order_count == v[priority_index(v.len(), side, j)].1.len());
    }
    lemma_listed_orders(pl, v, side);
}

/// A book with no orders has no best bid or ask, hence no spread, lists no
/// levels on either side, and holds no orders.
pub proof fn lemma_empty_book(b: OrderBook)
    requires
        b.bids() == Seq::<(Price, Seq<Order>)>::empty(),
        b.asks() == Seq::<(Price, Seq<Order>)>::empty(),
    ensures
        depth_best_price(b.bids(), OrderSide::Buy) is None,
        depth_best_price(b.asks(), OrderSide::Sell) is None,
        forall|n: int| 0 <= n ==> #[trigger] top_levels(Seq::<(Price, Quantity)>::empty(), b.bids(), OrderSide::Buy, n),
        forall|n: int| 0 <= n ==> #[trigger] top_levels(Seq::<(Price, Quantity)>::empty(), b.asks(), OrderSide::Sell, n),
        b.book_orders() == 0,
        forall|id: OrderId| !#[trigger] b.book_contains(id),
{
}

/// Each market depth row describes its own price level: its order count and
/// volume are those of the orders in the book at the row's price, counted one
/// by one, and its cumulative volume (when asked for) is the previous row's
/// plus its own.
pub proof fn lemma_depth_rows_own_level(b: OrderBook, side: OrderSide, j: int, cumulative: bool)
    requires
        b.wf(),
        0 <= j < b.side_view(side).len(),
    ensures
        ({
            let v = b.side_view(side);
            let row = depth_row(v, side, j, cumulative);
            &&& row.order_count == side_orders_within(v, row.price, row.price)
            &&& row.volume == side_volume_within(v, row.price, row.price)
            &&& cumulative && j == 0 ==> row.cumulative_volume == row.volume
            &&& cumulative && j > 0 ==> row.cumulative_volume
                == depth_row(v, side, j - 1, cumulative).cumulative_volume + row.volume
        }),
{
    b.lemma_wf();
    let v = b.side_view(side);
    let i = priority_index(v.len(), side, j);
    let p = v[i].0;
    lemma_point_range(v, i);
    lemma_range_by_orders(v, side, p, p);
    lemma_depth_total_bound(v, i);
    lemma_best_levels_step(v, side, j);
    if j > 0 {
        lemma_best_levels_step(v, side, j - 1);
    } else {
        assert(best_levels(v, side, 0).len() == 0);
        assert(depth_total(best_levels(v, side, 0)) == 0);
    }
}

/// The liquidity of a book near its middle counts the bids priced at or above
/// the lower bound and the asks priced at or below the upper bound, both
/// bounds included: the volume and order counts are those of the orders so
/// priced, counted one by one.
pub proof fn lemma_liquidity_by_orders(b: OrderBook, min_price: Price, max_price: Price)
    requires
        b.wf(),
    ensures
        volume_in_range(b.bids(), min_price, i64::MAX) == side_volume_within(b.bids(), min_price, i64::MAX),
        orders_in_range(b.bids(), min_price, i64::MAX) == side_orders_within(b.bids(), min_price, i64::MAX),
        volume_in_range(b.asks(), i64::MIN, max_price) == side_volume_within(b.asks(), i64::MIN, max_price),
        orders_in_range(b.asks(), i64::MIN, max_price) == side_orders_within(b.asks(), i64::MIN, max_price),
{
    b.lemma_wf();
    lemma_range_by_orders(b.bids(), OrderSide::Buy, min_price, i64::MAX);
    lemma_range_by_orders(b.asks(), OrderSide::Sell, i64::MIN, max_price);
}

/// A market order takes exactly the smaller of its size and the whole volume
/// of the side it trades against.
pub proof fn lemma_market_impact_volume(v: DepthView, side: OrderSide, size: nat)
    ensures
        plan_volume(fill_plan(ladder(v, side), size)) == if size < depth_total(v) { size } else { depth_total(v) },
{
    lemma_fill_plan_volume(ladder(v, side), size);
    lemma_ladder_volume(v, side);
}

} // verus!
