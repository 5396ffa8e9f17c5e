//! Orders, their identifiers and the enumerations that describe them.

use vstd::prelude::*;
use vstd::std_specs::cmp::{PartialEqSpecImpl, PartialOrdSpecImpl};
use std::cmp::Ordering;
use vstd::arithmetic::power2::pow2;
use crate::external::{now_nanos, random_uuid, uuid_string};

verus! {

/// Price in fixed-point representation (`PRICE_MULTIPLIER` units per whole price unit).
pub type Price = i64;

/// Quantity in fixed-point representation (`QUANTITY_MULTIPLIER` units per whole lot).
pub type Quantity = u64;

/// Timestamp in nanoseconds.
pub type Timestamp = u64;

/// Client identifier.
pub type ClientId = String;

/// Internal price units per whole price unit (5 decimal places).
pub const PRICE_MULTIPLIER: i64 = 100_000;

/// Internal quantity units per whole unit of quantity (8 decimal places).
pub const QUANTITY_MULTIPLIER: u64 = 100_000_000;

/// Unique identifier for an order: the 128-bit value of a random UUID.
#[derive(Debug, Clone, Copy, PartialEq, Eq, Structural, Hash)]
pub struct OrderId(pub u128);

impl OrderId {
    /// Create a new random order ID: a random version-4 UUID.
    pub fn new() -> (id: Self)
        ensures
            is_v4_uuid(id.0),
    {
        OrderId(random_uuid())
    }

    /// The id as text: the UUID in hyphenated lowercase hexadecimal.
    pub fn to_string(&self) -> (s: String)
        ensures
            s@ == uuid_text(self.0),
    {
        uuid_string(self.0)
    }
}

/// The 128-bit value of a version-4 (random) UUID: its version nibble is 4
/// and its variant bits are `10`.
pub open spec fn is_v4_uuid(v: u128) -> bool {
    v & 0x0000_0000_0000_f000_c000_0000_0000_0000u128 == 0x0000_0000_0000_4000_8000_0000_0000_0000u128
}

/// The lowercase hexadecimal digit of a value below 16.
pub open spec fn hex_digit(n: int) -> char {
    if n < 10 {
        (48 + n) as char
    } else {
        (87 + n) as char
    }
}

/// Hexadecimal digit number `d` of a 128-bit value, counting from the most
/// significant (0) to the least significant (31).
pub open spec fn nibble(v: u128, d: int) -> int {
    (v as int / pow2((4 * (31 - d)) as nat) as int) % 16
}

/// The text of the UUID with the 128-bit value `v`: its 32 hexadecimal digits
/// in lowercase, most significant first, in groups of 8, 4, 4, 4 and 12
/// separated by hyphens.
pub open spec fn uuid_text(v: u128) -> Seq<char> {
    Seq::new(
        36,
        |i: int|
            if i == 8 || i == 13 || i == 18 || i == 23 {
                '-'
            } else {
                let hyphens_before: int = if i < 8 { 0 } else if i < 13 { 1 } else if i < 18 { 2 } else if i < 23 { 3 } else { 4 };
                hex_digit(nibble(v, i - hyphens_before))
            },
    )
}

/// Order side (buy or sell)
#[derive(Debug, Clone, Copy, PartialEq, Eq, Structural, Hash)]
pub enum OrderSide {
    /// Buy order (bid)
    Buy,
    /// Sell order (ask)
    Sell,
}

/// Order type
#[derive(Debug, Clone, Copy, PartialEq, Eq, Structural, Hash)]
pub enum OrderType {
    /// Limit order with a specific price
    Limit,
    /// Market order executed at best available price
    Market,
    /// Stop order activated when price reaches a specific level
    Stop,
    /// Stop limit order
    StopLimit,
}

/// Time in force for an order
#[derive(Debug, Clone, Copy, PartialEq, Eq, Structural, Hash)]
pub enum TimeInForce {
    /// Good till canceled
    GTC,
    /// Immediate or cancel
    IOC,
    /// Fill or kill
    FOK,
    /// Good till date
    GTD(Timestamp),
}

/// Order status
#[derive(Debug, Clone, Copy, PartialEq, Eq, Structural, Hash)]
pub enum OrderStatus {
    /// Order is active and in the book
    Active,
    /// Order has been partially filled
    PartiallyFilled,
    /// Order has been completely filled
    Filled,
    /// Order has been canceled
    Canceled,
    /// Order has been rejected
    Rejected,
    /// Order is stopped and waiting for activation
    Stopped,
}

/// Execution of an order
#[derive(Debug, Clone, Copy, PartialEq, Eq, Structural)]
pub struct Execution {
    /// Timestamp of the execution
    pub timestamp: Timestamp,
    /// Quantity executed
    pub quantity: Quantity,
    /// Execution price
    pub price: Price,
    /// Counterparty order ID
    pub counterparty_id: OrderId,
}

/// Order in the order book
#[derive(Debug)]
pub struct Order {
    /// Unique order ID
    pub id: OrderId,
    /// Order price
    pub price: Price,
    /// Original order quantity
    pub original_quantity: Quantity,
    /// Remaining quantity
    pub remaining_quantity: Quantity,
    /// Order side (buy or sell)
    pub side: OrderSide,
    /// Timestamp of the order
    pub timestamp: Timestamp,
    /// Client ID
    pub client_id: ClientId,
    /// Order status
    pub status: OrderStatus,
    /// Order type
    pub order_type: OrderType,
    /// Time in force
    pub time_in_force: TimeInForce,
    /// Executed quantity
    pub executed_quantity: Quantity,
    /// Average execution price
    pub average_execution_price: Option<Price>,
    /// List of executions
    pub executions: Vec<Execution>,
    /// Index in the price level queue
    pub queue_position: Option<usize>,
}

/// The mathematical value of an order: its fields, with the client id as a
/// sequence of characters and the executions as a sequence.
pub struct OrderView {
    pub id: OrderId,
    pub price: Price,
    pub original_quantity: Quantity,
    pub remaining_quantity: Quantity,
    pub side: OrderSide,
    pub timestamp: Timestamp,
    pub client_id: Seq<char>,
    pub status: OrderStatus,
    pub order_type: OrderType,
    pub time_in_force: TimeInForce,
    pub executed_quantity: Quantity,
    pub average_execution_price: Option<Price>,
    pub executions: Seq<Execution>,
    pub queue_position: Option<usize>,
}

impl View for Order {
    type V = OrderView;

    open spec fn view(&self) -> OrderView {
        OrderView {
            id: self.id,
            price: self.price,
            original_quantity: self.original_quantity,
            remaining_quantity: self.remaining_quantity,
            side: self.side,
            timestamp: self.timestamp,
            client_id: self.client_id@,
            status: self.status,
            order_type: self.order_type,
            time_in_force: self.time_in_force,
            executed_quantity: self.executed_quantity,
            average_execution_price: self.average_execution_price,
            executions: self.executions@,
            queue_position: self.queue_position,
        }
    }
}

impl Clone for Order {
    fn clone(&self) -> (res: Self)
        ensures
            res@ == self@,
    {
        let executions = self.executions.clone();
        proof {
            assert(executions@ =~= self.executions@);
        }
        Order {
            id: self.id,
            price: self.price,
            original_quantity: self.original_quantity,
            remaining_quantity: self.remaining_quantity,
            side: self.side,
            timestamp: self.timestamp,
            client_id: self.client_id.clone(),
            status: self.status,
            order_type: self.order_type,
            time_in_force: self.time_in_force,
            executed_quantity: self.executed_quantity,
            average_execution_price: self.average_execution_price,
            executions,
            queue_position: self.queue_position,
        }
    }
}

/// Orders are equal when their ids are.
impl PartialEq for Order {
    fn eq(&self, other: &Self) -> (r: bool) {
        self.id == other.id
    }
}

impl PartialEqSpecImpl for Order {
    open spec fn obeys_eq_spec() -> bool {
        true
    }

    open spec fn eq_spec(&self, other: &Self) -> bool {
        self.id == other.id
    }
}

impl Eq for Order {}

/// How two timestamps compare.
pub open spec fn time_order(a: Timestamp, b: Timestamp) -> Ordering {
    if a < b {
        Ordering::Less
    } else if a == b {
        Ordering::Equal
    } else {
        Ordering::Greater
    }
}

/// Orders are ordered by time priority (FIFO): by timestamp.
impl PartialOrd for Order {
    fn partial_cmp(&self, other: &Self) -> (r: Option<Ordering>) {
        if self.timestamp < other.timestamp {
            Some(Ordering::Less)
        } else if self.timestamp == other.timestamp {
            Some(Ordering::Equal)
        } else {
            Some(Ordering::Greater)
        }
    }
}

impl PartialOrdSpecImpl for Order {
    open spec fn obeys_partial_cmp_spec() -> bool {
        true
    }

    open spec fn partial_cmp_spec(&self, other: &Self) -> Option<Ordering> {
        Some(time_order(self.timestamp, other.timestamp))
    }
}

/// Whether an order in the given status is still live in the book.
pub open spec fn status_is_active(s: OrderStatus) -> bool {
    s is Active || s is PartiallyFilled
}

/// The average execution price after an execution of `q` at `p`, given the
/// quantity executed so far (before it) and the previous average, rounded
/// toward zero; 0 when nothing has been executed at all.
pub open spec fn next_average_price(prev_executed: int, prev_avg: Option<Price>, q: int, p: int) -> int {
    let total = prev_executed + q;
    let prev_value = match prev_avg {
        Some(a) => prev_executed * a,
        None => 0,
    };
    let value = prev_value + q * p;
    if total == 0 {
        0
    } else if value >= 0 {
        value / total
    } else {
        -((-value) / total)
    }
}

/// The quantity-weighted average price after an execution of `q` at `p`.
fn average_after(prev: u64, prev_avg: Option<Price>, q: u64, p: Price) -> (r: i64)
    requires
        prev + q <= u64::MAX,
    ensures
        r == next_average_price(prev as int, prev_avg, q as int, p as int),
{
    let total: i128 = prev as i128 + q as i128;
    let prev_value: i128 = match prev_avg {
        Some(a) => {
            proof { lemma_value_bounds(prev as int, a as int); }
            prev as i128 * a as i128
        },
        None => 0,
    };
    proof { lemma_value_bounds(q as int, p as int); }
    let new_value: i128 = q as i128 * p as i128;
    let value: i128 = prev_value + new_value;
    if total == 0 {
        0
    } else if value >= 0 {
        proof { lemma_average_fits(prev as int, prev_avg, q as int, p as int); }
        (value / total) as i64
    } else {
        proof { lemma_average_fits(prev as int, prev_avg, q as int, p as int); }
        let neg: i128 = -value;
        let quotient: i128 = neg / total;
        (-quotient) as i64
    }
}

proof fn lemma_value_bounds(q: int, p: int)
    requires
        0 <= q <= u64::MAX,
        i64::MIN <= p <= i64::MAX,
    ensures
        q * i64::MIN <= q * p <= q * i64::MAX,
        -0x8000_0000_0000_0000_0000_0000_0000_0000 < q * p < 0x7fff_ffff_ffff_ffff_ffff_ffff_ffff_ffff,
{
    assert(q * i64::MIN <= q * p <= q * i64::MAX) by (nonlinear_arith)
        requires 0 <= q, i64::MIN <= p <= i64::MAX;
    assert(q * i64::MAX <= 0xffff_ffff_ffff_ffff * i64::MAX) by (nonlinear_arith)
        requires 0 <= q <= 0xffff_ffff_ffff_ffff;
    assert(q * i64::MIN >= 0xffff_ffff_ffff_ffff * i64::MIN) by (nonlinear_arith)
        requires 0 <= q <= 0xffff_ffff_ffff_ffff;
}

proof fn lemma_average_fits(prev: int, prev_avg: Option<Price>, q: int, p: int)
    requires
        0 <= prev,
        0 <= q,
        prev + q <= u64::MAX,
        i64::MIN <= p <= i64::MAX,
    ensures
        ({
            let total = prev + q;
            let prev_value = match prev_avg { Some(a) => prev * a, None => 0 };
            let value = prev_value + q * p;
            &&& -0x8000_0000_0000_0000_0000_0000_0000_0000 < value < 0x7fff_ffff_ffff_ffff_ffff_ffff_ffff_ffff
            &&& total > 0 ==> (value >= 0 ==> value / total <= i64::MAX)
            &&& total > 0 ==> (value < 0 ==> (-value) / total <= 0x8000_0000_0000_0000)
        }),
{
    let total = prev + q;
    let a: int = match prev_avg { Some(a) => a as int, None => 0 };
    let prev_value = match prev_avg { Some(a) => prev * a, None => 0 };
    assert(prev_value == prev * a);
    let value = prev_value + q * p;
    assert(prev * i64::MIN <= prev * a <= prev * i64::MAX) by (nonlinear_arith)
        requires 0 <= prev, i64::MIN <= a <= i64::MAX;
    assert(q * i64::MIN <= q * p <= q * i64::MAX) by (nonlinear_arith)
        requires 0 <= q, i64::MIN <= p <= i64::MAX;
    assert(prev * i64::MAX + q * i64::MAX == total * i64::MAX) by (nonlinear_arith)
        requires total == prev + q;
    assert(prev * i64::MIN + q * i64::MIN == total * i64::MIN) by (nonlinear_arith)
        requires total == prev + q;
    assert(total * i64::MAX <= 0xffff_ffff_ffff_ffff * i64::MAX) by (nonlinear_arith)
        requires 0 <= total <= 0xffff_ffff_ffff_ffff;
    assert(total * i64::MIN >= 0xffff_ffff_ffff_ffff * i64::MIN) by (nonlinear_arith)
        requires 0 <= total <= 0xffff_ffff_ffff_ffff;
    if total > 0 {
        if value >= 0 {
            assert(value / total <= i64::MAX) by (nonlinear_arith)
                requires total > 0, 0 <= value <= total * i64::MAX;
        } else {
            assert((-value) / total <= 0x8000_0000_0000_0000) by (nonlinear_arith)
                requires total > 0, 0 < -value <= total * 0x8000_0000_0000_0000;
        }
    }
}

impl Order {
    /// Create a new limit order.
    pub fn new_limit(
        side: OrderSide,
        price: Price,
        quantity: Quantity,
        client_id: ClientId,
        time_in_force: TimeInForce,
    ) -> (o: Self)
        ensures
            o.price == price,
            o.original_quantity == quantity,
            o.remaining_quantity == quantity,
            o.side == side,
            o.client_id == client_id,
            o.status == OrderStatus::Active,
            o.order_type == OrderType::Limit,
            o.time_in_force == time_in_force,
            o.executed_quantity == 0,
            o.average_execution_price.is_none(),
            o.executions@.len() == 0,
            o.queue_position.is_none(),
    {
        Order {
            id: OrderId::new(),
            price,
            original_quantity: quantity,
            remaining_quantity: quantity,
            side,
            timestamp: now_nanos(),
            client_id,
            status: OrderStatus::Active,
            order_type: OrderType::Limit,
            time_in_force,
            executed_quantity: 0,
            average_execution_price: None,
            executions: Vec::new(),
            queue_position: None,
        }
    }

    /// Create a new market order: it has no price (0) and is immediate-or-cancel.
    pub fn new_market(side: OrderSide, quantity: Quantity, client_id: ClientId) -> (o: Self)
        ensures
            o.price == 0,
            o.original_quantity == quantity,
            o.remaining_quantity == quantity,
            o.side == side,
            o.client_id == client_id,
            o.status == OrderStatus::Active,
            o.order_type == OrderType::Market,
            o.time_in_force == TimeInForce::IOC,
            o.executed_quantity == 0,
            o.average_execution_price.is_none(),
            o.executions@.len() == 0,
            o.queue_position.is_none(),
    {
        Order {
            id: OrderId::new(),
            price: 0,
            original_quantity: quantity,
            remaining_quantity: quantity,
            side,
            timestamp: now_nanos(),
            client_id,
            status: OrderStatus::Active,
            order_type: OrderType::Market,
            time_in_force: TimeInForce::IOC,
            executed_quantity: 0,
            average_execution_price: None,
            executions: Vec::new(),
            queue_position: None,
        }
    }

    /// Record an execution: the executed quantity grows by it, the remaining
    /// quantity shrinks by it (to no less than 0: an execution of more than
    /// remains fills the order), the average execution price becomes the
    /// quantity-weighted average (rounded toward zero), the execution is
    /// appended, and the order is filled when nothing remains, else partially
    /// filled.
    pub fn add_execution(&mut self, execution: Execution)
        requires
            old(self).executed_quantity + execution.quantity <= u64::MAX,
        ensures
            final(self)@ == (OrderView {
                executed_quantity: (old(self).executed_quantity + execution.quantity) as u64,
                remaining_quantity: if execution.quantity <= old(self).remaining_quantity {
                    (old(self).remaining_quantity - execution.quantity) as u64
                } else {
                    0
                },
                average_execution_price: Some(
                    next_average_price(
                        old(self).executed_quantity as int,
                        old(self).average_execution_price,
                        execution.quantity as int,
                        execution.price as int,
                    ) as i64,
                ),
                executions: old(self).executions@.push(execution),
                status: if old(self).remaining_quantity <= execution.quantity {
                    OrderStatus::Filled
                } else {
                    OrderStatus::PartiallyFilled
                },
                ..old(self)@
            }),
            i64::MIN <= next_average_price(
                old(self).executed_quantity as int,
                old(self).average_execution_price,
                execution.quantity as int,
                execution.price as int,
            ) <= i64::MAX,
    {
        let prev: u64 = self.executed_quantity;
        let q: u64 = execution.quantity;
        self.executed_quantity = prev + q;
        self.remaining_quantity = self.remaining_quantity.saturating_sub(q);
        let avg = average_after(prev, self.average_execution_price, q, execution.price);
        self.average_execution_price = Some(avg);
        self.executions.push(execution);
        if self.remaining_quantity == 0 {
            self.status = OrderStatus::Filled;
        } else {
            self.status = OrderStatus::PartiallyFilled;
        }
    }

    /// Cancel the order, unless it is already filled.
    pub fn cancel(&mut self)
        ensures
            final(self)@ == (OrderView {
                status: if old(self).status == OrderStatus::Filled {
                    OrderStatus::Filled
                } else {
                    OrderStatus::Canceled
                },
                ..old(self)@
            }),
    {
        if self.status != OrderStatus::Filled {
            self.status = OrderStatus::Canceled;
        }
    }

    /// Is the order active (active or partially filled)?
    pub fn is_active(&self) -> (b: bool)
        ensures
            b == status_is_active(self.status),
    {
        match self.status {
            OrderStatus::Active | OrderStatus::PartiallyFilled => true,
            _ => false,
        }
    }
}

/// An order stays active from its creation until nothing of it remains or it
/// is cancelled: a new order and a partly filled one are active; a filled,
/// cancelled, rejected or stopped one is not. So an order that has executed
/// some but not all of its quantity is active, and cancelling any order
/// leaves it inactive.
pub proof fn lemma_active_lifecycle(remaining: u64, executed: u64, s: OrderStatus)
    ensures
        status_is_active(OrderStatus::Active),
        0 < executed < remaining ==> status_is_active(
            if remaining <= executed { OrderStatus::Filled } else { OrderStatus::PartiallyFilled },
        ),
        remaining <= executed ==> !status_is_active(
            if remaining <= executed { OrderStatus::Filled } else { OrderStatus::PartiallyFilled },
        ),
        !status_is_active(if s == OrderStatus::Filled { OrderStatus::Filled } else { OrderStatus::Canceled }),
        !status_is_active(OrderStatus::Rejected),
        !status_is_active(OrderStatus::Stopped),
        status_is_active(s) <==> (s != OrderStatus::Filled && s != OrderStatus::Canceled && s != OrderStatus::Rejected
            && s != OrderStatus::Stopped),
{
}

/// Sum of the remaining quantities of a sequence of orders.
pub open spec fn total_remaining(orders: Seq<Order>) -> nat
    decreases orders.len(),
{
    if orders.len() == 0 {
        0
    } else {
        total_remaining(orders.drop_last()) + orders.last().remaining_quantity as nat
    }
}

/// Appending an order adds its remaining quantity.
pub proof fn lemma_total_remaining_push(orders: Seq<Order>, o: Order)
    ensures
        total_remaining(orders.push(o)) == total_remaining(orders) + o.remaining_quantity,
{
    assert(orders.push(o).drop_last() =~= orders);
}

/// The total of a concatenation is the sum of the totals.
pub proof fn lemma_total_remaining_concat(a: Seq<Order>, b: Seq<Order>)
    ensures
        total_remaining(a + b) == total_remaining(a) + total_remaining(b),
    decreases b.len(),
{
    if b.len() == 0 {
        assert(a + b =~= a);
    } else {
        lemma_total_remaining_concat(a, b.drop_last());
        assert((a + b).drop_last() =~= a + b.drop_last());
    }
}

/// Removing the order at `k` takes its remaining quantity off the total.
pub proof fn lemma_total_remaining_remove(orders: Seq<Order>, k: int)
    requires
        0 <= k < orders.len(),
    ensures
        total_remaining(orders) == total_remaining(orders.remove(k)) + orders[k].remaining_quantity,
{
    let a = orders.subrange(0, k);
    let b = orders.subrange(k + 1, orders.len() as int);
    assert(orders =~= a + (seq![orders[k]] + b));
    assert(orders.remove(k) =~= a + b);
    lemma_total_remaining_concat(a, seq![orders[k]] + b);
    lemma_total_remaining_concat(seq![orders[k]], b);
    lemma_total_remaining_concat(a, b);
    assert(seq![orders[k]].drop_last() =~= Seq::<Order>::empty());
    assert(total_remaining(Seq::<Order>::empty()) == 0);
    assert(total_remaining(seq![orders[k]]) == orders[k].remaining_quantity);
}

/// Replacing the order at `k` swaps its remaining quantity in the total.
pub proof fn lemma_total_remaining_update(orders: Seq<Order>, k: int, o: Order)
    requires
        0 <= k < orders.len(),
    ensures
        total_remaining(orders.update(k, o)) + orders[k].remaining_quantity
            == total_remaining(orders) + o.remaining_quantity,
{
    lemma_total_remaining_remove(orders, k);
    lemma_total_remaining_remove(orders.update(k, o), k);
    assert(orders.update(k, o).remove(k) =~= orders.remove(k));
}

/// The total of a single order is its remaining quantity.
pub proof fn lemma_total_remaining_single(o: Order)
    ensures
        total_remaining(seq![o]) == o.remaining_quantity,
{
    assert(seq![o].drop_last() =~= Seq::<Order>::empty());
    assert(total_remaining(Seq::<Order>::empty()) == 0);
}

/// Each order's remaining quantity is part of the total.
pub proof fn lemma_total_remaining_bound(orders: Seq<Order>, k: int)
    requires
        0 <= k < orders.len(),
    ensures
        orders[k].remaining_quantity <= total_remaining(orders),
{
    lemma_total_remaining_remove(orders, k);
}

/// The total depends only on the orders' remaining quantities.
pub proof fn lemma_total_remaining_views(a: Seq<Order>, b: Seq<Order>)
    requires
        a.len() == b.len(),
        forall|i: int| 0 <= i < a.len() ==> a[i].remaining_quantity == b[i].remaining_quantity,
    ensures
        total_remaining(a) == total_remaining(b),
    decreases a.len(),
{
    if a.len() > 0 {
        lemma_total_remaining_views(a.drop_last(), b.drop_last());
    }
}

/// No two orders of the sequence share an id.
pub open spec fn ids_unique(orders: Seq<Order>) -> bool {
    forall|i: int, j: int|
        0 <= i < orders.len() && 0 <= j < orders.len() && i != j ==> #[trigger] orders[i].id != #[trigger] orders[j].id
}

/// Some order of the sequence has the id.
pub open spec fn contains_id(orders: Seq<Order>, id: OrderId) -> bool {
    exists|k: int| 0 <= k < orders.len() && #[trigger] orders[k].id == id
}

/// The position of an order with the id (the only one, when ids are unique).
pub open spec fn position_of_id(orders: Seq<Order>, id: OrderId) -> int {
    choose|k: int| 0 <= k < orders.len() && #[trigger] orders[k].id == id
}

/// With unique ids, the order with an id sits at `position_of_id`, and nowhere else.
pub proof fn lemma_position_of_id(orders: Seq<Order>, id: OrderId, k: int)
    requires
        ids_unique(orders),
        0 <= k < orders.len(),
        orders[k].id == id,
    ensures
        contains_id(orders, id),
        position_of_id(orders, id) == k,
{
    assert(contains_id(orders, id));
    let p = position_of_id(orders, id);
    assert(0 <= p < orders.len() && orders[p].id == id);
}

} // verus!
