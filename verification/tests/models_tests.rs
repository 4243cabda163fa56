use engine::models::{mid_price_of, parse_order_type, MidPrice, OrderType, PlaceOrderRequest, TradingPair};
use engine::server::{
    order_placed_response, prepare_order, quote_response, simulate_cpu_latency, unknown_pair_response,
    AppState,
};

fn request(pair: &str, order_type: &str, price: u64, quantity: u64) -> PlaceOrderRequest {
    PlaceOrderRequest {
        trading_pair: pair.to_string(),
        order_type: order_type.to_string(),
        price,
        quantity,
    }
}

#[test]
fn pair_parses_base_and_quote() {
    let p = TradingPair::from_string("BTC/USD").unwrap();
    assert_eq!((p.base.as_str(), p.quote.as_str()), ("BTC", "USD"));
    let p = TradingPair::from_string("/").unwrap();
    assert_eq!((p.base.as_str(), p.quote.as_str()), ("", ""));
}

#[test]
fn pair_needs_exactly_one_slash() {
    for text in ["BTCUSD", "BTC/USD/EUR", "", "//"] {
        let err = TradingPair::from_string(text).unwrap_err();
        assert_eq!(err, "Invalid trading pair format. Use BASE/QUOTE");
    }
}

#[test]
fn pair_text_round_trips() {
    let p = TradingPair::new("ETH", "EUR");
    let text = p.to_string();
    assert_eq!(text, "ETH/EUR");
    let q = TradingPair::from_string(&text).unwrap();
    assert!(q.same_as(&p));
    assert!(!q.same_as(&TradingPair::new("ETH", "USD")));
}

#[test]
fn order_type_in_any_case() {
    assert_eq!(parse_order_type("buy"), Some(OrderType::Buy));
    assert_eq!(parse_order_type("BUY"), Some(OrderType::Buy));
    assert_eq!(parse_order_type("Sell"), Some(OrderType::Sell));
    assert_eq!(parse_order_type("hold"), None);
    assert_eq!(parse_order_type(" buy"), None);
}

#[test]
fn to_order_checks_in_order() {
    let o = request("BTC/USD", "Buy", 5, 7).to_order(42).unwrap();
    assert_eq!((o.id, o.order_type, o.price, o.quantity), (42, OrderType::Buy, 5, 7));
    assert_eq!(o.trading_pair.to_string(), "BTC/USD");

    assert_eq!(request("BTCUSD", "hold", 0, 0).to_order(1).unwrap_err(), "Invalid trading pair format. Use BASE/QUOTE");
    assert_eq!(request("BTC/USD", "hold", 0, 0).to_order(1).unwrap_err(), "Invalid order type: hold");
    assert_eq!(request("BTC/USD", "sell", 0, 3).to_order(1).unwrap_err(), "Price and quantity must be positive");
    assert_eq!(request("BTC/USD", "sell", 3, 0).to_order(1).unwrap_err(), "Price and quantity must be positive");
}

#[test]
fn mid_price_cases() {
    assert_eq!(mid_price_of(Some(3), Some(4)), Some(MidPrice { half_units: 7 }));
    assert_eq!(mid_price_of(Some(3), None), Some(MidPrice { half_units: 6 }));
    assert_eq!(mid_price_of(None, Some(4)), Some(MidPrice { half_units: 8 }));
    assert_eq!(mid_price_of(None, None), None);
    assert_eq!(mid_price_of(Some(u64::MAX), Some(u64::MAX)), Some(MidPrice { half_units: 2 * u64::MAX as u128 }));
}

#[test]
fn server_responses() {
    let refused = prepare_order(&request("BTC/USD", "hold", 1, 1), 9).unwrap_err();
    assert!(!refused.success);
    assert_eq!(refused.message, "Invalid order type: hold");
    let order = prepare_order(&request("BTC/USD", "sell", 1, 1), 9).unwrap();
    assert_eq!(order.id, 9);
    let placed = order_placed_response();
    assert!(placed.success);
    assert_eq!(placed.message, "Order placed successfully");
    let unknown = unknown_pair_response("BTCUSD/".to_string());
    assert_eq!(unknown.trading_pair, "BTCUSD/");
    assert!(unknown.price.is_none() && unknown.bid.is_none() && unknown.ask.is_none());
    let quote = quote_response("A/B".to_string(), Some(1), None, Some(MidPrice { half_units: 2 }));
    assert_eq!((quote.bid, quote.ask, quote.price), (Some(1), None, Some(MidPrice { half_units: 2 })));
}

#[test]
fn registry_makes_each_book_once() {
    let mut state: AppState<String> = AppState::new();
    let factory = |p: TradingPair| p.to_string();
    assert_eq!(state.get_or_create_orderbook(TradingPair::new("A", "B"), &factory), "A/B");
    assert_eq!(state.get_or_create_orderbook(TradingPair::new("C", "D"), &factory), "C/D");
    let counting = |_p: TradingPair| "made again".to_string();
    assert_eq!(state.get_or_create_orderbook(TradingPair::new("A", "B"), &counting), "A/B");
}

#[test]
fn cpu_latency_sum() {
    assert_eq!(simulate_cpu_latency(), 332_833_500);
}
