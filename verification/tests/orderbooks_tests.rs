use engine::models::{MidPrice, Order, OrderType, TradingPair, PRECISION};
use engine::orderbooks::concurrent::ConcurrentOrderBook;
use engine::orderbooks::lockfree::{AtomicPriceLevel, LockFreeOrderBook};
use engine::orderbooks::simple::SimpleOrderBook;

fn units(x: u64) -> u64 {
    x * PRECISION
}

fn mid(x: u64) -> Option<MidPrice> {
    Some(MidPrice { half_units: 2 * units(x) as u128 })
}

#[test]
fn test_orderbook_creation() {
    let trading_pair = TradingPair::new("TEST", "USD");
    let orderbook = SimpleOrderBook::new(trading_pair);

    assert_eq!(orderbook.get_active_orders_count(), 0);
    assert_eq!(orderbook.get_current_price(), None);
}

#[test]
fn test_concurrent_basic_operations() {
    let trading_pair = TradingPair::new("BTC", "USD");
    let mut orderbook = ConcurrentOrderBook::new(trading_pair.clone());

    assert_eq!(orderbook.get_active_orders_count(), 0);
    assert_eq!(orderbook.get_current_price(), None);

    let buy_order = Order::new(1, trading_pair.clone(), OrderType::Buy, units(50000), units(1));
    orderbook.add_order(buy_order);

    assert_eq!(orderbook.get_active_orders_count(), 1);
    assert_eq!(orderbook.get_current_price(), mid(50000));
}

#[test]
fn concurrent_test_concurrent_matching() {
    let trading_pair = TradingPair::new("ETH", "USD");
    let mut orderbook = ConcurrentOrderBook::new(trading_pair.clone());

    let buy_order = Order::new(1, trading_pair.clone(), OrderType::Buy, units(3000), units(2));
    orderbook.add_order(buy_order);

    let sell_order = Order::new(2, trading_pair.clone(), OrderType::Sell, units(3000), units(1));
    orderbook.add_order(sell_order);

    assert_eq!(orderbook.get_active_orders_count(), 1);
    let (bid, ask) = orderbook.get_best_bid_ask();
    assert_eq!(bid, Some(units(3000)));
    assert_eq!(ask, None);
}

#[test]
fn simple_sell_meets_highest_bid_first() {
    let pair = TradingPair::new("BTC", "USD");
    let mut book = SimpleOrderBook::new(pair.clone());
    book.add_order(Order::new(1, pair.clone(), OrderType::Buy, 80, 5));
    book.add_order(Order::new(2, pair.clone(), OrderType::Buy, 100, 5));
    book.add_order(Order::new(3, pair.clone(), OrderType::Sell, 90, 5));
    assert_eq!(book.get_best_bid_ask(), (Some(80), None));
    assert_eq!(book.get_active_orders_count(), 1);
}

#[test]
fn concurrent_sell_meets_highest_bid_first() {
    let pair = TradingPair::new("BTC", "USD");
    let mut book = ConcurrentOrderBook::new(pair.clone());
    book.add_order(Order::new(1, pair.clone(), OrderType::Buy, units(100), units(1)));
    book.add_order(Order::new(2, pair.clone(), OrderType::Buy, units(110), units(1)));
    book.add_order(Order::new(3, pair.clone(), OrderType::Sell, units(105), units(1)));
    assert_eq!(book.get_best_bid_ask(), (Some(units(100)), None));
    assert_eq!(book.get_active_orders_count(), 1);
}

#[test]
fn simple_sweep_over_levels_rests_remainder() {
    let pair = TradingPair::new("ETH", "USD");
    let mut book = SimpleOrderBook::new(pair.clone());
    book.add_order(Order::new(1, pair.clone(), OrderType::Sell, 101, 3));
    book.add_order(Order::new(2, pair.clone(), OrderType::Sell, 102, 3));
    book.add_order(Order::new(3, pair.clone(), OrderType::Sell, 105, 3));
    book.add_order(Order::new(4, pair.clone(), OrderType::Buy, 103, 10));
    assert_eq!(book.get_best_bid_ask(), (Some(103), Some(105)));
    assert_eq!(book.get_active_orders_count(), 2);
    assert_eq!(book.get_current_price(), Some(MidPrice { half_units: 208 }));
}

#[test]
fn zero_quantity_order_does_not_rest() {
    let pair = TradingPair::new("ETH", "USD");
    let mut book = SimpleOrderBook::new(pair.clone());
    book.add_order(Order::new(1, pair.clone(), OrderType::Buy, 10, 0));
    assert_eq!(book.get_active_orders_count(), 0);
}

#[test]
fn lockfree_matches_and_rests() {
    let pair = TradingPair::new("ETH", "USD");
    let mut book = LockFreeOrderBook::new(pair.clone());
    assert_eq!(book.get_current_price(), None);
    book.add_order(Order::new(1, pair.clone(), OrderType::Buy, units(3000), units(2)));
    book.add_order(Order::new(2, pair.clone(), OrderType::Sell, units(3000), units(1)));
    assert_eq!(book.get_active_orders_count(), 1);
    assert_eq!(book.get_best_bid_ask(), (Some(units(3000)), None));
    assert_eq!(book.get_current_price(), mid(3000));
}

#[test]
fn lockfree_best_bid_passes_emptied_level() {
    let pair = TradingPair::new("ETH", "USD");
    let mut book = LockFreeOrderBook::new(pair.clone());
    book.add_order(Order::new(1, pair.clone(), OrderType::Buy, 90, 1));
    book.add_order(Order::new(2, pair.clone(), OrderType::Buy, 100, 1));
    book.add_order(Order::new(3, pair.clone(), OrderType::Sell, 100, 1));
    // The level at 100 stays, empty; the best bid is the highest level that
    // still holds orders.
    assert_eq!(book.get_best_bid_ask(), (Some(90), None));
    assert_eq!(book.get_current_price(), Some(MidPrice { half_units: 180 }));
    assert_eq!(book.get_active_orders_count(), 1);
    // A sell at 90 passes the empty level and trades with the bid at 90.
    book.add_order(Order::new(4, pair.clone(), OrderType::Sell, 90, 1));
    assert_eq!(book.get_active_orders_count(), 0);
}

#[test]
fn lockfree_partial_fill_goes_behind() {
    let mut level = AtomicPriceLevel::new(100);
    let pair = TradingPair::new("A", "B");
    level.add_order(Order::new(1, pair.clone(), OrderType::Sell, 100, 5));
    level.add_order(Order::new(2, pair.clone(), OrderType::Sell, 100, 5));
    assert_eq!(level.get_order_count(), 2);
    assert_eq!(level.get_total_quantity(), 10);
    let (first, m) = level.try_match(3).unwrap();
    assert_eq!((first.id, first.quantity, m), (1, 2, 3));
    let (second, m) = level.try_match(5).unwrap();
    assert_eq!((second.id, second.quantity, m), (2, 0, 5));
    let (again, m) = level.try_match(5).unwrap();
    assert_eq!((again.id, again.quantity, m), (1, 0, 2));
    assert_eq!(level.get_order_count(), 0);
    assert!(level.try_match(1).is_none());
}

#[test]
fn order_count_gains_remainder_loses_whole_fills() {
    let pair = TradingPair::new("ETH", "USD");
    let mut simple = SimpleOrderBook::new(pair.clone());
    let mut concurrent = ConcurrentOrderBook::new(pair.clone());
    let mut lockfree = LockFreeOrderBook::new(pair.clone());
    for (id, price) in [(1u64, 101u64), (2, 102)] {
        simple.add_order(Order::new(id, pair.clone(), OrderType::Sell, price, 1));
        concurrent.add_order(Order::new(id, pair.clone(), OrderType::Sell, price, 1));
        lockfree.add_order(Order::new(id, pair.clone(), OrderType::Sell, price, 1));
    }
    simple.add_order(Order::new(3, pair.clone(), OrderType::Buy, 103, 3));
    concurrent.add_order(Order::new(3, pair.clone(), OrderType::Buy, 103, 3));
    lockfree.add_order(Order::new(3, pair.clone(), OrderType::Buy, 103, 3));
    // Two resting orders filled whole, one remainder resting.
    assert_eq!(simple.get_active_orders_count(), 1);
    assert_eq!(concurrent.get_active_orders_count(), 1);
    assert_eq!(lockfree.get_active_orders_count(), 1);
    assert_eq!(simple.get_best_bid_ask(), (Some(103), None));
    assert_eq!(lockfree.get_best_bid_ask(), (Some(103), None));
    assert_eq!(simple.order_counts_wide(), (1, 0));
    assert_eq!(concurrent.order_counts_wide(), (1, 0));
    assert_eq!(lockfree.order_counts_wide(), (1, 0));
}
