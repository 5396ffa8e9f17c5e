//! Tests for orders, price levels, book sides and timing.

use hft_orderbook::order::{
    Execution, Order, OrderId, OrderSide, OrderStatus, OrderType, TimeInForce, QUANTITY_MULTIPLIER,
};
use hft_orderbook::price_level::PriceLevel;
use hft_orderbook::side::{AskSide, BidSide, BookSide, Side};
use hft_orderbook::util::measure_time;

fn limit(side: OrderSide, price: i64, quantity: u64) -> Order {
    Order::new_limit(side, price, quantity, "c".to_string(), TimeInForce::GTC)
}

#[test]
fn new_orders() {
    let o = limit(OrderSide::Buy, 100, 5);
    assert_eq!(o.order_type, OrderType::Limit);
    assert_eq!(o.status, OrderStatus::Active);
    assert_eq!(o.remaining_quantity, 5);
    assert!(o.is_active());
    let m = Order::new_market(OrderSide::Sell, 7, "m".to_string());
    assert_eq!(m.price, 0);
    assert_eq!(m.order_type, OrderType::Market);
    assert_eq!(m.time_in_force, TimeInForce::IOC);
    assert_ne!(OrderId::new(), OrderId::new());
}

#[test]
fn executions_update_the_order() {
    let mut o = limit(OrderSide::Buy, 100, 10);
    let other = OrderId::new();
    o.add_execution(Execution { timestamp: 1, quantity: 4, price: 100, counterparty_id: other });
    assert_eq!(o.executed_quantity, 4);
    assert_eq!(o.remaining_quantity, 6);
    assert_eq!(o.status, OrderStatus::PartiallyFilled);
    assert_eq!(o.average_execution_price, Some(100));
    o.add_execution(Execution { timestamp: 2, quantity: 6, price: 110, counterparty_id: other });
    // (4 * 100 + 6 * 110) / 10 = 106
    assert_eq!(o.average_execution_price, Some(106));
    assert_eq!(o.status, OrderStatus::Filled);
    assert_eq!(o.executions.len(), 2);
    o.cancel();
    assert_eq!(o.status, OrderStatus::Filled);
    assert!(!o.is_active());
    let mut p = limit(OrderSide::Sell, 100, 10);
    p.cancel();
    assert_eq!(p.status, OrderStatus::Canceled);
}

#[test]
fn orders_compare_by_id_and_time() {
    let a = limit(OrderSide::Buy, 100, 1);
    let b = a.clone();
    assert!(a == b);
    let mut c = limit(OrderSide::Buy, 100, 1);
    assert!(a != c);
    c.timestamp = a.timestamp + 1;
    assert!(a < c);
}

#[test]
fn price_level_queues_in_time_priority() {
    let mut level = PriceLevel::new(100, 4);
    assert!(level.is_empty());
    let a = level.add_order(limit(OrderSide::Buy, 100, 2));
    let b = level.add_order(limit(OrderSide::Buy, 100, 3));
    let c = level.add_order(limit(OrderSide::Buy, 100, 4));
    assert_eq!(level.total_quantity(), 9);
    assert_eq!(level.order_count(), 3);
    assert_eq!(level.remove_order_by_id(&b).unwrap().remaining_quantity, 3);
    assert!(level.remove_order_by_id(&b).is_none());
    assert_eq!(level.total_quantity(), 6);
    let ids: Vec<OrderId> = level.orders().iter().map(|o| o.id).collect();
    assert_eq!(ids, vec![a, c]);
    assert!(level.update_order_by_id(&c, |mut o| {
        o.remaining_quantity = 1;
        o
    }));
    assert_eq!(level.total_quantity(), 3);
    assert_eq!(level.get_order_by_id(&c).unwrap().remaining_quantity, 1);
    let (seq, first) = level.next_order().unwrap();
    assert_eq!(seq, 0);
    assert_eq!(first.id, a);
    assert_eq!(level.order_count(), 1);
    let data = level.to_data();
    assert_eq!(data.price, 100);
    assert_eq!(data.total_quantity, 1);
    assert_eq!(data.order_count, 1);
    assert!(PriceLevel::new(100, 1) == PriceLevel::new(100, 8));
    assert!(PriceLevel::new(99, 1) < PriceLevel::new(100, 1));
}

#[test]
fn book_side_keeps_levels_in_order() {
    let mut bids = BidSide::new(8);
    bids.add_order(limit(OrderSide::Buy, 100, 1));
    bids.add_order(limit(OrderSide::Buy, 102, 2));
    let id = bids.add_order(limit(OrderSide::Buy, 101, 3));
    bids.add_order(limit(OrderSide::Buy, 102, 4));
    assert_eq!(bids.best_price(), Some(102));
    assert_eq!(bids.depth(), 3);
    assert_eq!(bids.total_volume(), 10);
    let prices: Vec<i64> = bids.price_levels().iter().map(|l| l.0).collect();
    assert_eq!(prices, vec![102, 101, 100]);
    assert_eq!(bids.get_price_level(102).unwrap().total_quantity, 6);
    assert!(bids.get_price_level(103).is_none());
    assert!(bids.update_order(&id, |mut o| {
        o.remaining_quantity = 1;
        o
    }));
    assert_eq!(bids.total_volume(), 8);
    assert_eq!(bids.remove_order(&id).unwrap().remaining_quantity, 1);
    assert_eq!(bids.depth(), 2);
    assert_eq!(bids.next_best_order().unwrap().remaining_quantity, 2);
    assert_eq!(bids.next_best_order().unwrap().remaining_quantity, 4);
    assert_eq!(bids.best_price(), Some(100));

    let mut asks = AskSide::new(8);
    asks.add_order(limit(OrderSide::Sell, 105, 1));
    asks.add_order(limit(OrderSide::Sell, 103, 1));
    assert_eq!(asks.best_price(), Some(103));
    assert_eq!(asks.get_order(&OrderId::new()).is_none(), true);
}

#[test]
fn book_side_statistics() {
    let mut side = BookSide::new(OrderSide::Sell, 8);
    assert!(side.get_worst_price().is_none());
    let mut asks = AskSide::new(8);
    for (p, q) in [(100i64, 1u64), (103, 2), (104, 3), (110, 4)] {
        asks.add_order(limit(OrderSide::Sell, p, q));
    }
    let s = asks.book_side();
    assert_eq!(s.get_worst_price(), Some(110));
    assert_eq!(s.count_levels_in_range(101, 105), 2);
    assert_eq!(s.total_volume_in_range(101, 105), 5);
    assert_eq!(s.order_count(), 4);
    assert_eq!(s.orders_in_price_range(100, 103), 2);
    // Ten units of range in two buckets of five, from the best price 100; the
    // level at 110 lies beyond the last bucket and counts in it.
    assert_eq!(s.volume_distribution(2), vec![(100, 6), (105, 4)]);
    assert_eq!(s.volume_distribution(3), vec![(100, 1), (103, 5), (106, 4)]);
    assert_eq!(s.volume_distribution(1), vec![(100, 10)]);
    assert_eq!(s.count_levels_in_range(105, 101), 0);
    assert_eq!(s.total_volume_in_range(105, 101), 0);
    assert_eq!(s.orders_in_price_range(105, 101), 0);
    let data = s.to_data();
    assert_eq!(data.best_price, Some(100));
    assert_eq!(data.statistics.order_count, 4);
    assert_eq!(data.statistics.depth_in_pips, 10);
    side = BookSide::new(OrderSide::Buy, 1);
    assert!(side.get_worst_price().is_none());
}

#[test]
fn measure_time_returns_the_result() {
    let (r, d) = measure_time(|| 6 * 7);
    assert_eq!(r, 42);
    assert!(d.as_secs() < 60);
    let _ = QUANTITY_MULTIPLIER;
}

#[test]
fn order_ids_print_as_uuids() {
    let id = OrderId(0x0123_4567_89ab_cdef_fedc_ba98_7654_3210);
    assert_eq!(id.to_string(), "01234567-89ab-cdef-fedc-ba9876543210");
    assert_eq!(OrderId(0).to_string(), "00000000-0000-0000-0000-000000000000");
    assert_eq!(OrderId::new().to_string().len(), 36);
}

#[test]
fn new_order_ids_are_version_4_uuids() {
    for _ in 0..16 {
        let id = OrderId::new();
        assert_eq!(id.0 & 0x0000_0000_0000_f000_c000_0000_0000_0000, 0x0000_0000_0000_4000_8000_0000_0000_0000);
        assert_eq!(id.to_string().as_bytes()[14], b'4');
    }
}

#[test]
fn over_execution_fills_the_order() {
    let mut o = limit(OrderSide::Buy, 100, 10);
    o.add_execution(Execution { timestamp: 1, quantity: 15, price: 100, counterparty_id: OrderId::new() });
    assert_eq!(o.executed_quantity, 15);
    assert_eq!(o.remaining_quantity, 0);
    assert_eq!(o.status, OrderStatus::Filled);
}

#[test]
fn a_full_level_grows_its_queue() {
    let mut level = PriceLevel::new(100, 1);
    let o1 = limit(OrderSide::Buy, 100, 1);
    let o2 = limit(OrderSide::Buy, 100, 2);
    let (i1, i2) = (o1.id, o2.id);
    level.add_order(o1);
    assert_eq!(level.add_order(o2), i2);
    assert_eq!(level.order_count(), 2);
    assert_eq!(level.total_quantity(), 3);
    assert_eq!(level.get_order_by_id(&i1).map(|o| o.id), Some(i1));
    assert_eq!(level.get_order_by_id(&i2).map(|o| o.id), Some(i2));
    let ids: Vec<OrderId> = level.orders().iter().map(|o| o.id).collect();
    assert_eq!(ids, vec![i1, i2]);
}
