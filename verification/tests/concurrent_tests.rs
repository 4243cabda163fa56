use engine::engine::concurrent::ConcurrentOrderBook;
use engine::engine::models::{Order, OrderType, Timestamp, TradingPair};
use engine::models::PRECISION;

fn now() -> Timestamp {
    let t = chrono::Utc::now();
    Timestamp { secs: t.timestamp(), nanos: t.timestamp_subsec_nanos() }
}

#[test]
fn concurrent_tests_test_concurrent_matching() {
    let mut order_book = ConcurrentOrderBook::new(TradingPair::new("BTC", "USD"));

    let buy_order = Order {
        id: 1,
        trading_pair: TradingPair::new("BTC", "USD"),
        order_type: OrderType::Buy,
        price: 50000 * PRECISION,
        quantity: PRECISION,
        timestamp: now(),
    };

    let sell_order = Order {
        id: 2,
        trading_pair: TradingPair::new("BTC", "USD"),
        order_type: OrderType::Sell,
        price: 50000 * PRECISION,
        quantity: PRECISION,
        timestamp: now(),
    };

    let mut total_trades = 0;
    total_trades += order_book.add_order(buy_order).len();
    total_trades += order_book.add_order(sell_order).len();

    assert_eq!(total_trades, 1, "Expected one trade to be executed");
}

#[test]
fn concurrent_engine_book_keeps_empty_levels() {
    let pair = TradingPair::new("BTC", "USD");
    let mut book = ConcurrentOrderBook::new(pair.clone());
    let mk = |id: u64, t: OrderType, price: u64, quantity: u64| Order {
        id,
        trading_pair: pair.clone(),
        order_type: t,
        price,
        quantity,
        timestamp: Timestamp { secs: 0, nanos: 0 },
    };
    book.add_order(mk(1, OrderType::Sell, 100, 2));
    book.add_order(mk(2, OrderType::Sell, 101, 2));
    let trades = book.add_order(mk(3, OrderType::Buy, 101, 3));
    let terms: Vec<(u64, u64, u64, u64, u64)> =
        trades.iter().map(|t| (t.id, t.buy_order_id, t.sell_order_id, t.price, t.quantity)).collect();
    assert_eq!(terms, vec![(1, 3, 1, 100, 2), (2, 3, 2, 101, 1)]);
    let (bids, asks) = book.get_order_book();
    assert!(bids.is_empty());
    assert_eq!(asks.iter().map(|e| (e.price, e.quantity)).collect::<Vec<_>>(), vec![(100, 0), (101, 1)]);
    assert_eq!(book.get_active_orders_count(), 1);
    assert!(book.match_orders().is_empty());
    assert!(book.get_trade_history().is_empty());
}

#[test]
fn concurrent_engine_book_keeps_quantity() {
    let pair = TradingPair::new("ETH", "USD");
    let mut book = ConcurrentOrderBook::new(pair.clone());
    let mk = |id: u64, t: OrderType, price: u64, quantity: u64| Order {
        id,
        trading_pair: pair.clone(),
        order_type: t,
        price,
        quantity,
        timestamp: Timestamp { secs: 0, nanos: 0 },
    };
    book.add_order(mk(1, OrderType::Sell, 100, 2));
    book.add_order(mk(2, OrderType::Sell, 101, 2));
    let asks_before: u128 = book.get_order_book().1.iter().map(|e| e.quantity).sum();
    let trades = book.add_order(mk(3, OrderType::Buy, 105, 7));
    let traded: u64 = trades.iter().map(|t| t.quantity).sum();
    let (bids, asks) = book.get_order_book();
    let asks_after: u128 = asks.iter().map(|e| e.quantity).sum();
    let bids_after: u128 = bids.iter().map(|e| e.quantity).sum();
    assert_eq!(traded, 4);
    assert_eq!(asks_after + traded as u128, asks_before);
    assert_eq!(bids_after + traded as u128, 7);
    assert_eq!(bids.iter().map(|e| (e.price, e.quantity)).collect::<Vec<_>>(), vec![(105, 3)]);
}

#[test]
fn concurrent_engine_sell_meets_highest_bid_first() {
    let pair = TradingPair::new("BTC", "USD");
    let mut book = ConcurrentOrderBook::new(pair.clone());
    let mk = |id: u64, t: OrderType, price: u64, quantity: u64| Order {
        id,
        trading_pair: pair.clone(),
        order_type: t,
        price,
        quantity,
        timestamp: Timestamp { secs: 0, nanos: 0 },
    };
    book.add_order(mk(1, OrderType::Buy, 100, 1));
    book.add_order(mk(2, OrderType::Buy, 110, 1));
    let trades = book.add_order(mk(3, OrderType::Sell, 105, 1));
    let terms: Vec<(u64, u64, u64, u64, u64)> =
        trades.iter().map(|t| (t.id, t.buy_order_id, t.sell_order_id, t.price, t.quantity)).collect();
    assert_eq!(terms, vec![(1, 2, 3, 110, 1)]);
    assert_eq!(book.get_active_orders_count(), 1);
    let (bids, asks) = book.get_order_book();
    assert_eq!(bids.iter().map(|e| (e.price, e.quantity)).collect::<Vec<_>>(), vec![(110, 0), (100, 1)]);
    assert!(asks.is_empty());
}

#[test]
fn concurrent_engine_sell_sweeps_down() {
    let pair = TradingPair::new("BTC", "USD");
    let mut book = ConcurrentOrderBook::new(pair.clone());
    let mk = |id: u64, t: OrderType, price: u64, quantity: u64| Order {
        id,
        trading_pair: pair.clone(),
        order_type: t,
        price,
        quantity,
        timestamp: Timestamp { secs: 0, nanos: 0 },
    };
    book.add_order(mk(1, OrderType::Buy, 90, 2));
    book.add_order(mk(2, OrderType::Buy, 100, 2));
    book.add_order(mk(3, OrderType::Buy, 110, 2));
    let trades = book.add_order(mk(4, OrderType::Sell, 95, 5));
    let terms: Vec<(u64, u64)> = trades.iter().map(|t| (t.price, t.quantity)).collect();
    assert_eq!(terms, vec![(110, 2), (100, 2)]);
    let (bids, asks) = book.get_order_book();
    assert_eq!(bids.iter().map(|e| (e.price, e.quantity)).collect::<Vec<_>>(), vec![(110, 0), (100, 0), (90, 2)]);
    assert_eq!(asks.iter().map(|e| (e.price, e.quantity)).collect::<Vec<_>>(), vec![(95, 1)]);
}
