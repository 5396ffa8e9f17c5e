//! Tests for market depth, market impact and liquidity.

use hft_orderbook::book::{OrderBook, OrderBookConfig};
use hft_orderbook::market_depth::MarketDepthOptions;
use hft_orderbook::order::{OrderSide, TimeInForce, PRICE_MULTIPLIER, QUANTITY_MULTIPLIER};

fn px(price: f64) -> i64 {
    (price * PRICE_MULTIPLIER as f64) as i64
}

fn qty(quantity: f64) -> u64 {
    (quantity * QUANTITY_MULTIPLIER as f64).round() as u64
}

fn new_book() -> OrderBook {
    OrderBook::new("BTCUSD".to_string(), "EXCHANGE".to_string(), OrderBookConfig::default())
}

#[test]
fn test_market_depth_basic() {
    let mut book = new_book();
    book.add_limit_order(OrderSide::Buy, px(10000.0), qty(1.0), "client1".to_string(), TimeInForce::GTC).unwrap();
    book.add_limit_order(OrderSide::Buy, px(9990.0), qty(2.0), "client2".to_string(), TimeInForce::GTC).unwrap();
    book.add_limit_order(OrderSide::Sell, px(10010.0), qty(1.5), "client3".to_string(), TimeInForce::GTC).unwrap();
    book.add_limit_order(OrderSide::Sell, px(10020.0), qty(2.5), "client4".to_string(), TimeInForce::GTC).unwrap();

    let depth_data = book.get_market_depth(None);

    assert_eq!(depth_data.bids.len(), 2);
    assert_eq!(depth_data.bids[0].price, px(10000.0));
    assert_eq!(depth_data.bids[0].volume, qty(1.0));
    assert_eq!(depth_data.bids[1].price, px(9990.0));
    assert_eq!(depth_data.bids[1].volume, qty(2.0));

    assert_eq!(depth_data.asks.len(), 2);
    assert_eq!(depth_data.asks[0].price, px(10010.0));
    assert_eq!(depth_data.asks[0].volume, qty(1.5));
    assert_eq!(depth_data.asks[1].price, px(10020.0));
    assert_eq!(depth_data.asks[1].volume, qty(2.5));

    // The statistics rest on these: a positive spread, and volume on both sides.
    let spread = book.spread().unwrap();
    assert!(spread > 0);
    let mid = (book.best_ask().unwrap() + book.best_bid().unwrap()) as f64 / 2.0;
    assert!(spread as f64 / mid * 10000.0 > 0.0);
    assert!(depth_data.total_bid_volume as f64 / depth_data.total_ask_volume as f64 > 0.0);
}

#[test]
fn test_market_depth_options() {
    let mut book = new_book();
    for i in 0..20 {
        book.add_limit_order(
            OrderSide::Buy,
            px(10000.0 - i as f64 * 10.0),
            qty(1.0 + i as f64 * 0.1),
            format!("client{}", i),
            TimeInForce::GTC,
        )
        .unwrap();
    }
    for i in 0..20 {
        book.add_limit_order(
            OrderSide::Sell,
            px(10010.0 + i as f64 * 10.0),
            qty(1.5 + i as f64 * 0.1),
            format!("client{}", i + 100),
            TimeInForce::GTC,
        )
        .unwrap();
    }

    let options = MarketDepthOptions {
        max_levels: 5,
        calculate_statistics: true,
        calculate_cumulative: true,
        group_levels: false,
        group_threshold: None,
    };
    let depth_data = book.get_market_depth(Some(options));

    assert_eq!(depth_data.bids.len(), 5);
    assert_eq!(depth_data.asks.len(), 5);

    let mut expected_cumulative = 0;
    for level in depth_data.bids.iter() {
        expected_cumulative += level.volume;
        assert_eq!(level.cumulative_volume, expected_cumulative);
    }
    expected_cumulative = 0;
    for level in depth_data.asks.iter() {
        expected_cumulative += level.volume;
        assert_eq!(level.cumulative_volume, expected_cumulative);
    }
}

#[test]
fn test_market_impact() {
    let mut book = new_book();
    book.add_limit_order(OrderSide::Sell, px(10010.0), qty(1.0), "client1".to_string(), TimeInForce::GTC).unwrap();
    book.add_limit_order(OrderSide::Sell, px(10020.0), qty(2.0), "client2".to_string(), TimeInForce::GTC).unwrap();
    book.add_limit_order(OrderSide::Sell, px(10030.0), qty(3.0), "client3".to_string(), TimeInForce::GTC).unwrap();

    let impact = book.calculate_market_impact(OrderSide::Buy, qty(2.5));

    assert_eq!(impact.order_size, qty(2.5));
    assert_eq!(impact.side, OrderSide::Buy);
    assert_eq!(impact.execution_levels.len(), 2);

    assert_eq!(impact.execution_levels[0].price, px(10010.0));
    assert_eq!(impact.execution_levels[0].executed_volume, qty(1.0));
    assert_eq!(impact.execution_levels[0].executed_volume as f64 / impact.order_size as f64 * 100.0, 40.0);

    assert_eq!(impact.execution_levels[1].price, px(10020.0));
    assert_eq!(impact.execution_levels[1].executed_volume, qty(1.5));
    assert_eq!(impact.execution_levels[1].executed_volume as f64 / impact.order_size as f64 * 100.0, 60.0);

    // (10010.0 * 1.0 + 10020.0 * 1.5) / 2.5 = 10016.0
    let expected_execution_price =
        impact.total_value as f64 / PRICE_MULTIPLIER as f64 / impact.executed_quantity as f64;
    assert!((expected_execution_price - 10016.0).abs() < 0.01);
}

#[test]
fn test_liquidity_profile() {
    let mut book = new_book();
    book.add_limit_order(OrderSide::Buy, px(9980.0), qty(1.0), "client1".to_string(), TimeInForce::GTC).unwrap();
    book.add_limit_order(OrderSide::Buy, px(9990.0), qty(2.0), "client2".to_string(), TimeInForce::GTC).unwrap();
    book.add_limit_order(OrderSide::Buy, px(10000.0), qty(3.0), "client3".to_string(), TimeInForce::GTC).unwrap();
    book.add_limit_order(OrderSide::Sell, px(10010.0), qty(1.5), "client4".to_string(), TimeInForce::GTC).unwrap();
    book.add_limit_order(OrderSide::Sell, px(10020.0), qty(2.5), "client5".to_string(), TimeInForce::GTC).unwrap();
    book.add_limit_order(OrderSide::Sell, px(10030.0), qty(3.5), "client6".to_string(), TimeInForce::GTC).unwrap();

    // A 0.5% range around the mid price 10005.0.
    let mid = (book.best_ask().unwrap() + book.best_bid().unwrap()) as f64 / 2.0 / PRICE_MULTIPLIER as f64;
    assert!((mid - 10005.0).abs() < 0.1);
    let range = mid * 0.5 / 100.0;
    assert!((mid - range - 9954.975).abs() < 0.1);
    assert!((mid + range - 10055.025).abs() < 0.1);

    let l = book.liquidity_in_range(px(mid - range), px(mid + range));
    assert_eq!(l.bid_volume_in_range, qty(6.0));
    assert_eq!(l.ask_volume_in_range, qty(7.5));
    assert_eq!(l.bid_volume_in_range + l.ask_volume_in_range, qty(13.5));
    assert!((l.bid_volume_in_range as f64 / l.total_bid_volume as f64 - 1.0).abs() < 0.001);
    assert!((l.ask_volume_in_range as f64 / l.total_ask_volume as f64 - 1.0).abs() < 0.001);
    assert_eq!(l.bid_orders_in_range, 3);
    assert_eq!(l.ask_orders_in_range, 3);
}

#[test]
fn liquidity_range_excludes_far_levels() {
    let mut book = new_book();
    book.add_limit_order(OrderSide::Buy, px(90.0), qty(1.0), "a".to_string(), TimeInForce::GTC).unwrap();
    book.add_limit_order(OrderSide::Buy, px(99.0), qty(2.0), "a".to_string(), TimeInForce::GTC).unwrap();
    book.add_limit_order(OrderSide::Sell, px(101.0), qty(3.0), "a".to_string(), TimeInForce::GTC).unwrap();
    book.add_limit_order(OrderSide::Sell, px(110.0), qty(4.0), "a".to_string(), TimeInForce::GTC).unwrap();
    let l = book.liquidity_in_range(px(95.0), px(105.0));
    assert_eq!(l.bid_volume_in_range, qty(2.0));
    assert_eq!(l.ask_volume_in_range, qty(3.0));
    assert_eq!(l.bid_orders_in_range, 1);
    assert_eq!(l.ask_orders_in_range, 1);
    assert_eq!(l.total_bid_volume, qty(3.0));
    assert_eq!(l.total_ask_volume, qty(7.0));
}

#[test]
fn market_impact_takes_no_more_than_the_book_holds() {
    let mut book = new_book();
    book.add_limit_order(OrderSide::Buy, px(100.0), qty(1.0), "a".to_string(), TimeInForce::GTC).unwrap();
    book.add_limit_order(OrderSide::Buy, px(99.0), qty(2.0), "a".to_string(), TimeInForce::GTC).unwrap();
    let impact = book.calculate_market_impact(OrderSide::Sell, qty(10.0));
    assert_eq!(impact.executed_quantity, qty(3.0));
    assert_eq!(impact.execution_levels.len(), 2);
    assert_eq!(impact.execution_levels[0].price, px(100.0));
    assert_eq!(impact.execution_levels[1].price, px(99.0));
    assert_eq!(impact.base_price, Some(px(100.0)));
    assert_eq!(impact.total_value, px(100.0) as i128 * qty(1.0) as i128 + px(99.0) as i128 * qty(2.0) as i128);
    let none = book.calculate_market_impact(OrderSide::Buy, qty(1.0));
    assert_eq!(none.executed_quantity, 0);
    assert!(none.execution_levels.is_empty());
    assert_eq!(none.base_price, None);
}

#[test]
fn market_depth_without_cumulative_volumes() {
    let mut book = new_book();
    book.add_limit_order(OrderSide::Buy, px(100.0), qty(1.0), "a".to_string(), TimeInForce::GTC).unwrap();
    book.add_limit_order(OrderSide::Buy, px(100.0), qty(1.0), "a".to_string(), TimeInForce::GTC).unwrap();
    let mut options = MarketDepthOptions::default();
    options.calculate_cumulative = false;
    let depth = book.get_market_depth(Some(options));
    assert_eq!(depth.bids.len(), 1);
    assert_eq!(depth.bids[0].volume, qty(2.0));
    assert_eq!(depth.bids[0].order_count, 2);
    assert_eq!(depth.bids[0].cumulative_volume, 0);
    assert!(depth.asks.is_empty());
    assert_eq!(depth.total_bid_volume, qty(2.0));
    assert_eq!(depth.total_ask_volume, 0);
}

#[test]
fn default_depth_options() {
    let o = MarketDepthOptions::default();
    assert_eq!(o.max_levels, 10);
    assert!(o.calculate_statistics);
    assert!(o.calculate_cumulative);
    assert!(!o.group_levels);
    assert_eq!(o.group_threshold, None);
}
