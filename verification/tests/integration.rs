use engine::models::{MidPrice, Order, OrderType, TradingPair, PRECISION};
use engine::orderbooks::simple::SimpleOrderBook;

fn units(x: u64) -> u64 {
    x * PRECISION
}

fn mid(x: u64) -> Option<MidPrice> {
    Some(MidPrice { half_units: 2 * units(x) as u128 })
}

#[test]
fn test_empty_orderbook() {
    let trading_pair = TradingPair::new("BTC", "USD");
    let orderbook = SimpleOrderBook::new(trading_pair);

    assert_eq!(orderbook.get_active_orders_count(), 0);
    assert_eq!(orderbook.get_current_price(), None);

    let (bid, ask) = orderbook.get_best_bid_ask();
    assert_eq!(bid, None);
    assert_eq!(ask, None);
}

#[test]
fn test_single_order() {
    let trading_pair = TradingPair::new("ETH", "USD");
    let mut orderbook = SimpleOrderBook::new(trading_pair.clone());

    let order = Order::new(1, trading_pair, OrderType::Buy, units(3000), units(1));
    orderbook.add_order(order);

    assert_eq!(orderbook.get_active_orders_count(), 1);
    assert_eq!(orderbook.get_current_price(), mid(3000));

    let (bid, ask) = orderbook.get_best_bid_ask();
    assert_eq!(bid, Some(units(3000)));
    assert_eq!(ask, None);
}

#[test]
fn test_bid_ask_spread() {
    let trading_pair = TradingPair::new("BTC", "USD");
    let mut orderbook = SimpleOrderBook::new(trading_pair.clone());

    let buy_order = Order::new(1, trading_pair.clone(), OrderType::Buy, units(49900), units(1));
    orderbook.add_order(buy_order);

    let sell_order = Order::new(2, trading_pair, OrderType::Sell, units(50100), units(1));
    orderbook.add_order(sell_order);

    assert_eq!(orderbook.get_active_orders_count(), 2);
    assert_eq!(orderbook.get_current_price(), mid(50000));

    let (bid, ask) = orderbook.get_best_bid_ask();
    assert_eq!(bid, Some(units(49900)));
    assert_eq!(ask, Some(units(50100)));
}

#[test]
fn test_exact_match() {
    let trading_pair = TradingPair::new("ETH", "USD");
    let mut orderbook = SimpleOrderBook::new(trading_pair.clone());

    let buy_order = Order::new(1, trading_pair.clone(), OrderType::Buy, units(3000), units(2));
    orderbook.add_order(buy_order);
    assert_eq!(orderbook.get_active_orders_count(), 1);

    let sell_order = Order::new(2, trading_pair, OrderType::Sell, units(3000), units(2));
    orderbook.add_order(sell_order);

    assert_eq!(orderbook.get_active_orders_count(), 0);
    assert_eq!(orderbook.get_current_price(), None);
}

#[test]
fn test_partial_fill() {
    let trading_pair = TradingPair::new("BTC", "USD");
    let mut orderbook = SimpleOrderBook::new(trading_pair.clone());

    let sell_order = Order::new(1, trading_pair.clone(), OrderType::Sell, units(50000), units(3));
    orderbook.add_order(sell_order);
    assert_eq!(orderbook.get_active_orders_count(), 1);

    let buy_order = Order::new(2, trading_pair, OrderType::Buy, units(50000), units(1));
    orderbook.add_order(buy_order);

    assert_eq!(orderbook.get_active_orders_count(), 1);

    let (bid, ask) = orderbook.get_best_bid_ask();
    assert_eq!(bid, None);
    assert_eq!(ask, Some(units(50000)));
}

#[test]
fn test_price_time_priority() {
    let trading_pair = TradingPair::new("ETH", "USD");
    let mut orderbook = SimpleOrderBook::new(trading_pair.clone());

    let order1 = Order::new(1, trading_pair.clone(), OrderType::Buy, units(3000), units(1));
    let order2 = Order::new(2, trading_pair.clone(), OrderType::Buy, units(3000), units(1));
    let order3 = Order::new(3, trading_pair.clone(), OrderType::Buy, units(3000), units(1));

    orderbook.add_order(order1);
    orderbook.add_order(order2);
    orderbook.add_order(order3);

    assert_eq!(orderbook.get_active_orders_count(), 3);

    let sell_order = Order::new(4, trading_pair, OrderType::Sell, units(3000), units(2));
    orderbook.add_order(sell_order);

    assert_eq!(orderbook.get_active_orders_count(), 1);
}

#[test]
fn test_multiple_price_levels() {
    let trading_pair = TradingPair::new("BTC", "USD");
    let mut orderbook = SimpleOrderBook::new(trading_pair.clone());

    for i in 0..5u64 {
        let price = units(49000) + i * units(100);
        let order = Order::new(i, trading_pair.clone(), OrderType::Buy, price, units(1));
        orderbook.add_order(order);
    }

    for i in 5..10u64 {
        let price = units(50000) + (i - 5) * units(100);
        let order = Order::new(i, trading_pair.clone(), OrderType::Sell, price, units(1));
        orderbook.add_order(order);
    }

    assert_eq!(orderbook.get_active_orders_count(), 10);

    let (bid, ask) = orderbook.get_best_bid_ask();
    assert_eq!(bid, Some(units(49400)));
    assert_eq!(ask, Some(units(50000)));

    assert_eq!(orderbook.get_current_price(), mid(49700));
}

#[test]
fn test_concurrent_operations() {
    let trading_pair = TradingPair::new("TEST", "USD");
    let mut orderbook = SimpleOrderBook::new(trading_pair.clone());

    for i in 0..100u64 {
        let order = Order::new(
            i,
            trading_pair.clone(),
            if i % 2 == 0 { OrderType::Buy } else { OrderType::Sell },
            units(1000) + units(i),
            units(1),
        );
        orderbook.add_order(order);
    }

    let active_orders = orderbook.get_active_orders_count();
    assert!(active_orders <= 100);

    let (bid, ask) = orderbook.get_best_bid_ask();
    if let (Some(bid), Some(ask)) = (bid, ask) {
        assert!(ask >= bid);
    }
}
