use engine::engine::concurrent::ConcurrentOrderBook;
use engine::engine::lockfree::LockFreeOrderBook;
use engine::engine::models::{Order, OrderType, Timestamp, TradingPair};
use engine::engine::order_book::{SimpleOrderBook, DEFAULT_PRICE};
use engine::models::{MidPrice, PRECISION};

fn units(x: u64) -> u64 {
    x * PRECISION
}

fn now() -> Timestamp {
    let t = chrono::Utc::now();
    Timestamp { secs: t.timestamp(), nanos: t.timestamp_subsec_nanos() }
}

fn order(id: u64, order_type: OrderType, price: u64, quantity: u64) -> Order {
    Order {
        id,
        trading_pair: TradingPair::new("BTC", "USD"),
        order_type,
        price,
        quantity,
        timestamp: now(),
    }
}

#[test]
fn test_add_and_match_orders() {
    let mut order_book = SimpleOrderBook::new(TradingPair::new("BTC", "USD"));

    order_book.add_order(order(1, OrderType::Buy, units(50000), units(1)));
    order_book.add_order(order(2, OrderType::Sell, units(50000), units(1)));

    let trades = order_book.match_orders();
    assert_eq!(trades.len(), 1);
    assert_eq!(trades[0].quantity, units(1));
    assert_eq!(trades[0].price, units(50000));
}

#[test]
fn test_order_matching() {
    let mut book = ConcurrentOrderBook::new(TradingPair::new("BTC", "USD"));

    let buy_trades = book.add_order(order(1, OrderType::Buy, units(50000), units(1)));
    let sell_trades = book.add_order(order(2, OrderType::Sell, units(50000), units(1)));

    assert!(buy_trades.is_empty());
    assert_eq!(sell_trades.len(), 1);
}

#[test]
fn engine_simple_book_only_collects_until_matched() {
    let mut book = SimpleOrderBook::new(TradingPair::new("BTC", "USD"));
    assert_eq!(book.get_current_price(), Some(MidPrice { half_units: 2 * DEFAULT_PRICE as u128 }));
    book.add_order(order(1, OrderType::Buy, 105, 4));
    book.add_order(order(2, OrderType::Sell, 100, 3));
    book.add_order(order(3, OrderType::Sell, 100, 2));
    book.add_order(order(4, OrderType::Buy, 101, 1));
    assert_eq!(book.get_active_orders_count(), 4);
    let (bids, asks) = book.get_order_book();
    assert_eq!(bids.iter().map(|e| (e.price, e.quantity)).collect::<Vec<_>>(), vec![(105, 4), (101, 1)]);
    assert_eq!(asks.iter().map(|e| (e.price, e.quantity)).collect::<Vec<_>>(), vec![(100, 5)]);

    let trades = book.match_orders();
    let terms: Vec<(u64, u64, u64, u64, u64)> =
        trades.iter().map(|t| (t.id, t.buy_order_id, t.sell_order_id, t.price, t.quantity)).collect();
    assert_eq!(terms, vec![(1, 1, 2, 100, 3), (2, 1, 3, 100, 1), (3, 4, 3, 100, 1)]);
    assert_eq!(book.get_active_orders_count(), 0);
    assert_eq!(book.get_trade_history().len(), 3);
    // An empty book reports the default price.
    assert_eq!(book.get_current_price(), Some(MidPrice { half_units: 2 * DEFAULT_PRICE as u128 }));
    // Matching again finds nothing; trade numbers start again at 1 for each call.
    assert!(book.match_orders().is_empty());
    book.add_order(order(5, OrderType::Buy, 100, 1));
    book.add_order(order(6, OrderType::Sell, 99, 1));
    let again = book.match_orders();
    assert_eq!((again[0].id, again[0].price), (1, 99));
    assert_eq!(book.get_trade_history().len(), 4);
}

#[test]
fn engine_lockfree_book_records_trades() {
    let mut book = LockFreeOrderBook::new(TradingPair::new("BTC", "USD"));
    assert!(book.add_order(order(1, OrderType::Sell, 100, 2)).is_empty());
    assert!(book.add_order(order(2, OrderType::Sell, 101, 2)).is_empty());
    let trades = book.add_order(order(3, OrderType::Buy, 101, 3));
    let terms: Vec<(u64, u64, u64, u64, u64)> =
        trades.iter().map(|t| (t.id, t.buy_order_id, t.sell_order_id, t.price, t.quantity)).collect();
    // The level at 100 is emptied and stays; the buy passes over it to 101.
    assert_eq!(terms, vec![(1, 3, 1, 100, 2), (2, 3, 2, 101, 1)]);
    assert_eq!(book.get_active_orders_count(), 1);
    let (bids, asks) = book.get_order_book();
    assert!(bids.is_empty());
    assert_eq!(asks.iter().map(|e| (e.price, e.quantity)).collect::<Vec<_>>(), vec![(100, 0), (101, 1)]);
    assert_eq!(book.get_current_price(), Some(MidPrice { half_units: 200 }));
}

#[test]
fn engine_lockfree_book_keeps_quantity() {
    let mut book = LockFreeOrderBook::new(TradingPair::new("BTC", "USD"));
    book.add_order(order(1, OrderType::Buy, 100, 2));
    book.add_order(order(2, OrderType::Buy, 99, 2));
    let bids_before: u128 = book.get_order_book().0.iter().map(|e| e.quantity).sum();
    let trades = book.add_order(order(3, OrderType::Sell, 99, 3));
    let traded: u64 = trades.iter().map(|t| t.quantity).sum();
    let (bids, asks) = book.get_order_book();
    let bids_after: u128 = bids.iter().map(|e| e.quantity).sum();
    let asks_after: u128 = asks.iter().map(|e| e.quantity).sum();
    // The sell takes the best bid (100), then passes the emptied level to 99.
    assert_eq!(traded, 3);
    assert_eq!(bids_after + traded as u128, bids_before);
    assert_eq!(asks_after + traded as u128, 3);
}

#[test]
fn engine_lockfree_emptied_level_does_not_block() {
    let mut book = LockFreeOrderBook::new(TradingPair::new("BTC", "USD"));
    book.add_order(order(1, OrderType::Sell, 100, 1));
    book.add_order(order(2, OrderType::Sell, 101, 1));
    assert_eq!(book.add_order(order(3, OrderType::Buy, 100, 1)).len(), 1);
    let trades = book.add_order(order(4, OrderType::Buy, 101, 1));
    let terms: Vec<(u64, u64, u64, u64, u64)> =
        trades.iter().map(|t| (t.id, t.buy_order_id, t.sell_order_id, t.price, t.quantity)).collect();
    assert_eq!(terms, vec![(2, 4, 2, 101, 1)]);
    assert_eq!(book.get_active_orders_count(), 0);
    assert!(book.get_order_book().0.is_empty());
}
