//! Tests for the order book.

use hft_orderbook::book::{OrderBook, OrderBookConfig, OrderBookError};
use hft_orderbook::order::{OrderId, OrderSide, TimeInForce, PRICE_MULTIPLIER, QUANTITY_MULTIPLIER};

fn px(price: f64) -> i64 {
    (price * PRICE_MULTIPLIER as f64) as i64
}

fn qty(quantity: f64) -> u64 {
    (quantity * QUANTITY_MULTIPLIER as f64).round() as u64
}

fn new_book() -> OrderBook {
    OrderBook::new("BTCUSD".to_string(), "EXCHANGE".to_string(), OrderBookConfig::default())
}

#[test]
fn test_order_book_add_limit_order() {
    let mut book = new_book();

    let _order_id = book
        .add_limit_order(OrderSide::Buy, px(10000.0), qty(1.0), "client1".to_string(), TimeInForce::GTC)
        .unwrap();

    let best_bid = book.best_bid();
    assert!(best_bid.is_some());
    assert_eq!(best_bid.unwrap(), px(10000.0));

    let _order_id = book
        .add_limit_order(OrderSide::Sell, px(10001.0), qty(1.0), "client2".to_string(), TimeInForce::GTC)
        .unwrap();

    let best_ask = book.best_ask();
    assert!(best_ask.is_some());
    assert_eq!(best_ask.unwrap(), px(10001.0));

    let spread = book.spread();
    assert!(spread.is_some());
    assert_eq!(spread.unwrap(), px(10001.0) - px(10000.0));
}

#[test]
fn test_order_book_cancel_order() {
    let mut book = new_book();

    let order_id = book
        .add_limit_order(OrderSide::Buy, px(10000.0), qty(1.0), "client1".to_string(), TimeInForce::GTC)
        .unwrap();

    let order = book.cancel_order(&order_id);
    assert!(order.is_ok());

    let best_bid = book.best_bid();
    assert!(best_bid.is_none());
}

#[test]
fn test_order_book_top_bids_asks() {
    let mut book = new_book();

    book.add_limit_order(OrderSide::Buy, px(10000.0), qty(1.0), "client1".to_string(), TimeInForce::GTC).unwrap();
    book.add_limit_order(OrderSide::Buy, px(9999.0), qty(2.0), "client1".to_string(), TimeInForce::GTC).unwrap();
    book.add_limit_order(OrderSide::Buy, px(9998.0), qty(3.0), "client1".to_string(), TimeInForce::GTC).unwrap();

    book.add_limit_order(OrderSide::Sell, px(10001.0), qty(1.0), "client2".to_string(), TimeInForce::GTC).unwrap();
    book.add_limit_order(OrderSide::Sell, px(10002.0), qty(2.0), "client2".to_string(), TimeInForce::GTC).unwrap();
    book.add_limit_order(OrderSide::Sell, px(10003.0), qty(3.0), "client2".to_string(), TimeInForce::GTC).unwrap();

    let top_bids = book.top_bids(3);
    assert_eq!(top_bids.len(), 3);
    assert_eq!(top_bids[0].0, px(10000.0));
    assert_eq!(top_bids[1].0, px(9999.0));
    assert_eq!(top_bids[2].0, px(9998.0));

    let top_asks = book.top_asks(3);
    assert_eq!(top_asks.len(), 3);
    assert_eq!(top_asks[0].0, px(10001.0));
    assert_eq!(top_asks[1].0, px(10002.0));
    assert_eq!(top_asks[2].0, px(10003.0));
}

#[test]
fn add_then_cancel_restores_the_book() {
    let mut book = new_book();
    book.add_limit_order(OrderSide::Sell, px(10001.0), qty(2.0), "a".to_string(), TimeInForce::GTC).unwrap();
    let before_bids = book.top_bids(10);
    let before_asks = book.top_asks(10);
    let id = book
        .add_limit_order(OrderSide::Sell, px(10001.0), qty(1.5), "b".to_string(), TimeInForce::IOC)
        .unwrap();
    assert_eq!(book.top_asks(10), vec![(px(10001.0), qty(3.5))]);
    let order = book.cancel_order(&id).unwrap();
    assert_eq!(order.id, id);
    assert_eq!(order.price, px(10001.0));
    assert_eq!(order.remaining_quantity, qty(1.5));
    assert_eq!(order.client_id, "b");
    assert_eq!(order.time_in_force, TimeInForce::IOC);
    assert_eq!(book.top_bids(10), before_bids);
    assert_eq!(book.top_asks(10), before_asks);
    assert!(book.get_order(&id).is_none());
}

#[test]
fn cancel_unknown_order_is_not_found() {
    let mut book = new_book();
    let id = book
        .add_limit_order(OrderSide::Buy, px(100.0), qty(1.0), "a".to_string(), TimeInForce::GTC)
        .unwrap();
    book.cancel_order(&id).unwrap();
    assert!(matches!(book.cancel_order(&id), Err(OrderBookError::OrderNotFound)));
}

#[test]
fn order_size_limits_are_enforced() {
    let mut book = new_book();
    match book.add_limit_order(OrderSide::Buy, px(100.0), qty(0.0001), "a".to_string(), TimeInForce::GTC) {
        Err(OrderBookError::InvalidOrderSize(m)) => assert_eq!(m, "Order size too small"),
        _ => panic!("expected a size error"),
    }
    match book.add_limit_order(OrderSide::Buy, px(100.0), qty(1000.5), "a".to_string(), TimeInForce::GTC) {
        Err(OrderBookError::InvalidOrderSize(m)) => assert_eq!(m, "Order size too large"),
        _ => panic!("expected a size error"),
    }
    assert!(book.add_limit_order(OrderSide::Buy, px(100.0), qty(0.001), "a".to_string(), TimeInForce::GTC).is_ok());
    assert!(book.add_limit_order(OrderSide::Buy, px(100.0), qty(1000.0), "a".to_string(), TimeInForce::GTC).is_ok());
    assert_eq!(book.top_bids(1), vec![(px(100.0), qty(1000.001))]);
}

#[test]
fn full_book_refuses_orders() {
    let mut config = OrderBookConfig::default();
    config.max_levels = 2;
    let mut book = OrderBook::new("X".to_string(), "E".to_string(), config);
    book.add_limit_order(OrderSide::Buy, px(99.0), qty(1.0), "a".to_string(), TimeInForce::GTC).unwrap();
    book.add_limit_order(OrderSide::Sell, px(101.0), qty(1.0), "a".to_string(), TimeInForce::GTC).unwrap();
    // A new price would add a third level.
    assert!(matches!(
        book.add_limit_order(OrderSide::Buy, px(98.0), qty(1.0), "a".to_string(), TimeInForce::GTC),
        Err(OrderBookError::OrderBookFull)
    ));
    // An existing price adds no level.
    assert!(book.add_limit_order(OrderSide::Buy, px(99.0), qty(1.0), "a".to_string(), TimeInForce::GTC).is_ok());
    assert_eq!(book.top_bids(5), vec![(px(99.0), qty(2.0))]);
}

#[test]
fn book_refuses_orders_beyond_its_total() {
    let mut config = OrderBookConfig::default();
    config.max_total_orders = 2;
    let mut book = OrderBook::new("X".to_string(), "E".to_string(), config);
    book.add_limit_order(OrderSide::Buy, px(99.0), qty(1.0), "a".to_string(), TimeInForce::GTC).unwrap();
    book.add_limit_order(OrderSide::Sell, px(101.0), qty(1.0), "a".to_string(), TimeInForce::GTC).unwrap();
    assert!(matches!(
        book.add_limit_order(OrderSide::Buy, px(99.0), qty(1.0), "a".to_string(), TimeInForce::GTC),
        Err(OrderBookError::OrderBookFull)
    ));
}

#[test]
fn full_price_level_refuses_orders() {
    let mut config = OrderBookConfig::default();
    config.max_orders_per_level = 2;
    let mut book = OrderBook::new("X".to_string(), "E".to_string(), config);
    book.add_limit_order(OrderSide::Buy, px(99.0), qty(1.0), "a".to_string(), TimeInForce::GTC).unwrap();
    book.add_limit_order(OrderSide::Buy, px(99.0), qty(1.0), "a".to_string(), TimeInForce::GTC).unwrap();
    assert!(matches!(
        book.add_limit_order(OrderSide::Buy, px(99.0), qty(1.0), "a".to_string(), TimeInForce::GTC),
        Err(OrderBookError::PriceLevelFull)
    ));
    assert!(book.add_limit_order(OrderSide::Buy, px(98.0), qty(1.0), "a".to_string(), TimeInForce::GTC).is_ok());
    assert_eq!(book.top_bids(5), vec![(px(99.0), qty(2.0)), (px(98.0), qty(1.0))]);
}

#[test]
fn small_level_queues_grow() {
    let mut config = OrderBookConfig::default();
    config.buffer_size = 1;
    let mut book = OrderBook::new("X".to_string(), "E".to_string(), config);
    let mut ids = Vec::new();
    for i in 0..5u64 {
        ids.push(
            book.add_limit_order(OrderSide::Sell, px(101.0), qty(1.0 + i as f64), "a".to_string(), TimeInForce::GTC)
                .unwrap(),
        );
    }
    assert_eq!(book.top_asks(1), vec![(px(101.0), qty(15.0))]);
    for id in ids {
        assert_eq!(book.next_best_ask().unwrap().id, id);
    }
}

#[test]
fn explicit_ids_are_unique_in_the_book() {
    let mut book = new_book();
    let id = OrderId(42);
    assert_eq!(
        book.add_limit_order_with_id(id, OrderSide::Buy, px(99.0), qty(1.0), "a".to_string(), TimeInForce::GTC)
            .unwrap(),
        id
    );
    match book.add_limit_order_with_id(id, OrderSide::Sell, px(101.0), qty(1.0), "a".to_string(), TimeInForce::GTC) {
        Err(OrderBookError::Other(m)) => assert_eq!(m, "Duplicate order id"),
        _ => panic!("expected a duplicate id"),
    }
    assert!(book.best_ask().is_none());
    assert_eq!(book.get_order(&id).unwrap().price, px(99.0));
}

#[test]
fn next_best_orders_follow_price_time_priority() {
    let mut book = new_book();
    let first = book.add_limit_order(OrderSide::Buy, px(100.0), qty(1.0), "a".to_string(), TimeInForce::GTC).unwrap();
    let second = book.add_limit_order(OrderSide::Buy, px(100.0), qty(2.0), "b".to_string(), TimeInForce::GTC).unwrap();
    let better = book.add_limit_order(OrderSide::Buy, px(101.0), qty(3.0), "c".to_string(), TimeInForce::GTC).unwrap();
    let ask = book.add_limit_order(OrderSide::Sell, px(105.0), qty(1.0), "d".to_string(), TimeInForce::GTC).unwrap();
    assert_eq!(book.next_best_bid().unwrap().id, better);
    assert_eq!(book.next_best_bid().unwrap().id, first);
    assert_eq!(book.next_best_bid().unwrap().id, second);
    assert!(book.next_best_bid().is_none());
    assert_eq!(book.next_best_ask().unwrap().id, ask);
    assert!(book.next_best_ask().is_none());
    assert!(book.spread().is_none());
}

#[test]
fn get_order_finds_either_side() {
    let mut book = new_book();
    let bid = book.add_limit_order(OrderSide::Buy, px(100.0), qty(1.0), "a".to_string(), TimeInForce::GTC).unwrap();
    let ask = book.add_limit_order(OrderSide::Sell, px(101.0), qty(2.0), "b".to_string(), TimeInForce::GTC).unwrap();
    assert_eq!(book.get_order(&bid).unwrap().side, OrderSide::Buy);
    assert_eq!(book.get_order(&ask).unwrap().original_quantity, qty(2.0));
}

#[test]
fn to_data_summarizes_the_book() {
    let mut book = new_book();
    book.add_limit_order(OrderSide::Buy, px(100.0), qty(1.0), "a".to_string(), TimeInForce::GTC).unwrap();
    book.add_limit_order(OrderSide::Buy, px(100.0), qty(2.0), "a".to_string(), TimeInForce::GTC).unwrap();
    book.add_limit_order(OrderSide::Buy, px(99.0), qty(4.0), "a".to_string(), TimeInForce::GTC).unwrap();
    book.add_limit_order(OrderSide::Sell, px(101.0), qty(1.0), "b".to_string(), TimeInForce::GTC).unwrap();
    let data = book.to_data();
    assert_eq!(data.symbol, "BTCUSD");
    assert_eq!(data.exchange_id, "EXCHANGE");
    assert_eq!(data.last_update_id, 4);
    assert_eq!(data.bid_side.best_price, Some(px(100.0)));
    assert_eq!(data.bid_side.total_volume, qty(7.0));
    assert_eq!(data.bid_side.depth, 2);
    assert_eq!(data.bid_side.statistics.order_count, 3);
    assert_eq!(data.bid_side.statistics.depth_in_pips, px(100.0) - px(99.0));
    assert_eq!(data.ask_side.statistics.depth_in_pips, 0);
    assert_eq!(data.bid_side.price_levels[1].1.price, px(99.0));
    assert_eq!(data.bid_side.price_levels[0].0, px(100.0));
    assert_eq!(data.bid_side.price_levels[0].1.order_count, 2);
    assert_eq!(data.ask_side.best_price, Some(px(101.0)));
    assert_eq!(data.market_data.bids, vec![(px(100.0), qty(3.0)), (px(99.0), qty(4.0))]);
    assert_eq!(data.market_data.asks, vec![(px(101.0), qty(1.0))]);
    assert_eq!(data.config, OrderBookConfig::default());
    assert_eq!(data.order_depth, 3);
}

#[test]
fn adding_keeps_the_best_price() {
    let mut book = new_book();
    book.add_limit_order(OrderSide::Buy, px(99.0), qty(1.0), "a".to_string(), TimeInForce::GTC).unwrap();
    book.add_limit_order(OrderSide::Buy, px(98.0), qty(1.0), "a".to_string(), TimeInForce::GTC).unwrap();
    assert_eq!(book.best_bid(), Some(px(99.0)));
    book.add_limit_order(OrderSide::Buy, px(100.0), qty(1.0), "a".to_string(), TimeInForce::GTC).unwrap();
    assert_eq!(book.best_bid(), Some(px(100.0)));
    book.add_limit_order(OrderSide::Sell, px(102.0), qty(1.0), "a".to_string(), TimeInForce::GTC).unwrap();
    book.add_limit_order(OrderSide::Sell, px(101.0), qty(1.0), "a".to_string(), TimeInForce::GTC).unwrap();
    assert_eq!(book.best_ask(), Some(px(101.0)));
    assert_eq!(book.last_update_id(), 5);
}
