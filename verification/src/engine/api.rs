//! The values of the engine's HTTP front end, and how its requests become
//! orders and its answers are built.

use vstd::prelude::*;
use crate::engine::models::{now, Order, Timestamp, Trade};
use crate::models::{count_char, pair_written_as, side_named, lowercase, parse_order_type, MidPrice, TradingPair};

verus! {

/// One level of a book as the API shows it: its price and the quantity
/// resting there.
#[derive(Debug, Clone, Copy, PartialEq, Eq, Structural)]
pub struct OrderBookEntry {
    pub price: u64,
    pub quantity: u128,
}

/// A request to place an order, with price and quantity already in units of
/// [`crate::models::PRECISION`].
#[derive(Debug)]
pub struct PlaceOrderRequest {
    pub trading_pair: String,
    pub order_type: String,
    pub price: u64,
    pub quantity: u64,
}

/// The answer to a request to place an order.
#[derive(Debug)]
pub struct PlaceOrderResponse {
    pub order_id: u64,
    pub status: String,
}

/// The answer to a price query.
#[derive(Debug)]
pub struct PriceResponse {
    pub trading_pair: String,
    pub price: Option<MidPrice>,
    pub timestamp: String,
}

/// The answer to a query of a book's levels.
#[derive(Debug)]
pub struct OrderBookResponse {
    pub trading_pair: String,
    pub bids: Vec<OrderBookEntry>,
    pub asks: Vec<OrderBookEntry>,
    pub timestamp: String,
}

/// A trade as the API shows it. `timestamp` is absent when the trade's time
/// lies outside what `chrono` can write.
#[derive(Debug)]
pub struct TradeResponse {
    pub id: u64,
    pub trading_pair: String,
    pub price: u64,
    pub quantity: u64,
    pub timestamp: Option<String>,
}

/// The answer to a query of a pair's trades.
#[derive(Debug)]
pub struct TradeHistoryResponse {
    pub trading_pair: String,
    pub trades: Vec<TradeResponse>,
}

/// What `chrono` writes for a time as RFC 3339 text: the two calls
/// `DateTime::from_timestamp(secs, nanos)` and then `to_rfc3339` on its
/// result, composed; `None` when the first cannot represent that time.
pub uninterp spec fn rfc3339_of(secs: i64, nanos: u32) -> Option<Seq<char>>;

/// `DateTime::<Utc>::to_rfc3339` of the time `t` (made with
/// `DateTime::from_timestamp`); `None` when `chrono` cannot represent it.
#[verifier::external_body]
fn rfc3339(t: Timestamp) -> (r: Option<String>)
    ensures
        match r {
            Some(s) => rfc3339_of(t.secs, t.nanos) == Some(s@),
            None => rfc3339_of(t.secs, t.nanos) is None,
        },
{
    match chrono::DateTime::from_timestamp(t.secs, t.nanos) {
        Some(d) => Some(d.to_rfc3339()),
        None => None,
    }
}

/// `s` is the text of some time at or after the Unix epoch as `chrono`
/// writes it in RFC 3339 (empty when `chrono` cannot represent that time).
pub open spec fn time_text(s: Seq<char>) -> bool {
    exists|t: Timestamp| t.secs >= 0 && t.nanos < 1_000_000_000 && match #[trigger] rfc3339_of(t.secs, t.nanos) {
        Some(x) => s == x,
        None => s.len() == 0,
    }
}

/// The current time as RFC 3339 text, as `chrono` writes it; empty when
/// `chrono` cannot represent the time.
fn now_text() -> (r: String)
    ensures
        time_text(r@),
{
    let t = now();
    match rfc3339(t) {
        Some(s) => s,
        None => String::new(),
    }
}

/// The text `base/quote`.
pub fn pair_text(base: &str, quote: &str) -> (r: String)
    ensures
        r@ == base@ + seq!['/'] + quote@,
{
    let mut r = String::from_str(base);
    r.append("/");
    r.append(quote);
    proof {
        reveal_strlit("/");
    }
    r
}

/// The order a request asks for, numbered 0 and stamped with the current
/// time; `None` when its pair is not `BASE/QUOTE` or its type is neither buy
/// nor sell in any letter case (requests the handler refuses by panicking).
pub fn order_from_request(request: &PlaceOrderRequest) -> (r: Option<Order>)
    ensures
        r is Some <==> count_char(request.trading_pair@, '/') == 1 && side_named(lowercase(request.order_type@)) is Some,
        r matches Some(o) ==> {
            &&& o.id == 0
            &&& pair_written_as(o.trading_pair, request.trading_pair@)
            &&& Some(o.order_type) == side_named(lowercase(request.order_type@))
            &&& o.price == request.price
            &&& o.quantity == request.quantity
        },
{
    let trading_pair = match TradingPair::from_string(request.trading_pair.as_str()) {
        Ok(p) => p,
        Err(_) => return None,
    };
    let order_type = match parse_order_type(request.order_type.as_str()) {
        Some(t) => t,
        None => return None,
    };
    Some(Order {
        id: 0,
        trading_pair,
        order_type,
        price: request.price,
        quantity: request.quantity,
        timestamp: now(),
    })
}

/// The answer to an order request: number 0, and `accepted` when the order
/// reached the engine, `failed` when it did not.
pub fn place_order_response(sent: bool) -> (r: PlaceOrderResponse)
    ensures
        r.order_id == 0,
        r.status@ == if sent { "accepted"@ } else { "failed"@ },
{
    if sent {
        PlaceOrderResponse { order_id: 0, status: String::from_str("accepted") }
    } else {
        PlaceOrderResponse { order_id: 0, status: String::from_str("failed") }
    }
}

/// The answer to a price query for the text `trading_pair`, stamped with the
/// current time.
pub fn price_response(trading_pair: String, price: Option<MidPrice>) -> (r: PriceResponse)
    ensures
        r.trading_pair == trading_pair,
        r.price == price,
        time_text(r.timestamp@),
{
    PriceResponse { trading_pair, price, timestamp: now_text() }
}

/// The answer to a query of a book's levels, stamped with the current time.
pub fn order_book_response(
    trading_pair: String,
    bids: Vec<OrderBookEntry>,
    asks: Vec<OrderBookEntry>,
) -> (r: OrderBookResponse)
    ensures
        r.trading_pair == trading_pair,
        r.bids == bids,
        r.asks == asks,
        time_text(r.timestamp@),
{
    OrderBookResponse { trading_pair, bids, asks, timestamp: now_text() }
}

/// `r` shows the trade `t`: its number, its pair as `BASE/QUOTE`, its price
/// and quantity, and its time as `chrono` writes it (absent when `chrono`
/// cannot represent that time).
pub open spec fn shows_trade(r: TradeResponse, t: Trade) -> bool {
    &&& r.id == t.id
    &&& r.trading_pair@ == t.trading_pair.base@ + seq!['/'] + t.trading_pair.quote@
    &&& r.price == t.price
    &&& r.quantity == t.quantity
    &&& match r.timestamp {
        Some(s) => rfc3339_of(t.timestamp.secs, t.timestamp.nanos) == Some(s@),
        None => rfc3339_of(t.timestamp.secs, t.timestamp.nanos) is None,
    }
}

/// A trade as the API shows it.
pub fn trade_response(trade: &Trade) -> (r: TradeResponse)
    ensures
        shows_trade(r, *trade),
{
    TradeResponse {
        id: trade.id,
        trading_pair: trade.trading_pair.to_string(),
        price: trade.price,
        quantity: trade.quantity,
        timestamp: rfc3339(trade.timestamp),
    }
}

/// The answer to a query of a pair's trades: each trade as the API shows it,
/// in order.
pub fn trade_history_response(trading_pair: String, trades: &Vec<Trade>) -> (r: TradeHistoryResponse)
    ensures
        r.trading_pair == trading_pair,
        r.trades@.len() == trades@.len(),
        forall|k: int| 0 <= k < trades@.len() ==> shows_trade(#[trigger] r.trades@[k], trades@[k]),
{
    let mut responses: Vec<TradeResponse> = Vec::new();
    let mut k: usize = 0;
    while k < trades.len()
        invariant
            k <= trades.len(),
            responses@.len() == k,
            forall|j: int| 0 <= j < k ==> shows_trade(#[trigger] responses@[j], trades@[j]),
        decreases trades.len() - k,
    {
        responses.push(trade_response(&trades[k]));
        k = k + 1;
    }
    TradeHistoryResponse { trading_pair, trades: responses }
}

} // verus!
