use engine::engine::api::{
    order_book_response, order_from_request, pair_text, place_order_response, price_response,
    trade_history_response, PlaceOrderRequest,
};
use engine::engine::engine::{Engine as MatchingEngine, Message as MatchingMessage};
use engine::engine::engine_core::{Engine, Message, Reply};
use engine::engine::models::{Order, OrderType, Timestamp, Trade, TradingPair};
use engine::engine::order_book::DEFAULT_PRICE;
use engine::models::MidPrice;

fn order(id: u64, pair: &TradingPair, order_type: OrderType, price: u64, quantity: u64) -> Order {
    Order {
        id,
        trading_pair: pair.clone(),
        order_type,
        price,
        quantity,
        timestamp: Timestamp { secs: 0, nanos: 0 },
    }
}

#[test]
fn engine_answers_per_pair() {
    let btc = TradingPair::new("BTC", "USD");
    let eth = TradingPair::new("ETH", "USD");
    let mut engine = Engine::new();
    match engine.handle(Message::GetPrice(btc.clone())) {
        Reply::Price(p) => assert_eq!(p, Some(MidPrice { half_units: 2 * DEFAULT_PRICE as u128 })),
        other => panic!("unexpected {:?}", other),
    }
    assert!(matches!(engine.handle(Message::NewOrder(order(1, &btc, OrderType::Buy, 10, 1))), Reply::Done));
    assert!(matches!(engine.handle(Message::NewOrder(order(2, &eth, OrderType::Sell, 30, 1))), Reply::Done));
    match engine.handle(Message::GetPrice(btc.clone())) {
        Reply::Price(p) => assert_eq!(p, Some(MidPrice { half_units: 20 })),
        other => panic!("unexpected {:?}", other),
    }
    match engine.handle(Message::GetOrderBook(eth.clone())) {
        Reply::OrderBook(bids, asks) => {
            assert!(bids.is_empty());
            assert_eq!(asks.len(), 1);
            assert_eq!((asks[0].price, asks[0].quantity), (30, 1));
        },
        other => panic!("unexpected {:?}", other),
    }
    match engine.handle(Message::GetOrderBook(TradingPair::new("SOL", "USD"))) {
        Reply::OrderBook(bids, asks) => assert!(bids.is_empty() && asks.is_empty()),
        other => panic!("unexpected {:?}", other),
    }
    match engine.handle(Message::GetTradeHistory(btc.clone())) {
        Reply::Trades(t) => assert!(t.is_empty()),
        other => panic!("unexpected {:?}", other),
    }
    assert!(matches!(engine.handle(Message::Shutdown), Reply::Stop));
}

#[test]
fn engine_with_matching_step() {
    let btc = TradingPair::new("BTC", "USD");
    let mut engine = MatchingEngine::new();
    engine.handle(MatchingMessage::NewOrder(order(1, &btc, OrderType::Buy, 10, 2)));
    engine.handle(MatchingMessage::NewOrder(order(2, &btc, OrderType::Sell, 9, 1)));
    match engine.handle(MatchingMessage::MatchOrders(btc.clone())) {
        Reply::Trades(t) => {
            assert_eq!(t.len(), 1);
            assert_eq!((t[0].buy_order_id, t[0].sell_order_id, t[0].price, t[0].quantity), (1, 2, 9, 1));
        },
        other => panic!("unexpected {:?}", other),
    }
    assert!(matches!(engine.handle(MatchingMessage::MatchOrders(TradingPair::new("X", "Y"))), Reply::Done));
    match engine.handle(MatchingMessage::GetPrice(btc.clone())) {
        Reply::Price(p) => assert_eq!(p, Some(MidPrice { half_units: 20 })),
        other => panic!("unexpected {:?}", other),
    }
}

#[test]
fn api_builds_orders_and_answers() {
    let req = PlaceOrderRequest { trading_pair: "BTC/USD".to_string(), order_type: "SELL".to_string(), price: 5, quantity: 6 };
    let o = order_from_request(&req).unwrap();
    assert_eq!((o.id, o.order_type, o.price, o.quantity), (0, OrderType::Sell, 5, 6));
    let bad = PlaceOrderRequest { trading_pair: "BTC".to_string(), order_type: "buy".to_string(), price: 5, quantity: 6 };
    assert!(order_from_request(&bad).is_none());
    let bad = PlaceOrderRequest { trading_pair: "BTC/USD".to_string(), order_type: "bid".to_string(), price: 5, quantity: 6 };
    assert!(order_from_request(&bad).is_none());
    assert_eq!(place_order_response(true).status, "accepted");
    assert_eq!(place_order_response(false).status, "failed");
    assert_eq!(pair_text("BTC", "USD"), "BTC/USD");
    let p = price_response("BTC/USD".to_string(), None);
    assert_eq!(p.trading_pair, "BTC/USD");
    assert!(p.price.is_none());
    assert!(!p.timestamp.is_empty());
    let b = order_book_response("BTC/USD".to_string(), Vec::new(), Vec::new());
    assert!(b.bids.is_empty() && b.asks.is_empty());
    let trade = Trade {
        id: 7,
        trading_pair: TradingPair::new("BTC", "USD"),
        buy_order_id: 1,
        sell_order_id: 2,
        price: 3,
        quantity: 4,
        timestamp: Timestamp { secs: 0, nanos: 0 },
    };
    let h = trade_history_response("BTC/USD".to_string(), &vec![trade]);
    assert_eq!(h.trades.len(), 1);
    assert_eq!((h.trades[0].id, h.trades[0].price, h.trades[0].quantity), (7, 3, 4));
    assert_eq!(h.trades[0].trading_pair, "BTC/USD");
    assert_eq!(h.trades[0].timestamp.as_deref(), Some("1970-01-01T00:00:00+00:00"));
}

#[test]
fn stamped_order_carries_the_clock() {
    let o = engine::engine::models::Order::stamped(9, TradingPair::new("A", "B"), OrderType::Buy, 1, 2);
    assert_eq!((o.id, o.price, o.quantity), (9, 1, 2));
    // A clock set in this century reads well past the epoch.
    assert!(o.timestamp.secs > 1_600_000_000);
    assert!(o.timestamp.nanos < 1_000_000_000);
}
