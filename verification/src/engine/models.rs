//! Orders and trades of the engine. Orders carry the time they were made;
//! trades carry the time they were made.

use vstd::prelude::*;
use crate::level::Quantified;
use std::time::{Duration, SystemTime, UNIX_EPOCH};
pub use crate::models::{OrderType, TradingPair};

verus! {

/// A point in time: whole seconds since the Unix epoch and nanoseconds past
/// them (a leap second runs the nanoseconds past one second).
#[derive(Debug, Clone, Copy, PartialEq, Eq, Structural)]
pub struct Timestamp {
    pub secs: i64,
    pub nanos: u32,
}

/// Declares `std::time::SystemTime`, a reading of the system clock.
#[verifier::external_type_specification]
#[verifier::external_body]
pub struct ExSystemTime(SystemTime);

/// `SystemTime::now`: the clock's current reading. Nothing is promised of
/// it: it is whatever the clock says.
#[verifier::external_body]
fn system_now() -> SystemTime {
    SystemTime::now()
}

/// `SystemTime::duration_since` the Unix epoch: how long after the epoch `t`
/// lies, `None` when `t` is earlier. Nothing more is promised: the value is
/// the clock's.
#[verifier::external_body]
fn since_epoch(t: &SystemTime) -> Option<Duration> {
    match t.duration_since(UNIX_EPOCH) {
        Ok(d) => Some(d),
        Err(_) => None,
    }
}

/// `Duration::as_secs`: the whole seconds of `d`. Nothing is said of the
/// value, which comes from the clock.
#[verifier::external_body]
fn whole_secs(d: &Duration) -> u64 {
    d.as_secs()
}

/// `Duration::subsec_nanos`: the nanoseconds of `d` past its whole seconds,
/// which std documents as less than one second.
#[verifier::external_body]
fn subsec_nanos(d: &Duration) -> (r: u32)
    ensures
        r < 1_000_000_000,
{
    d.subsec_nanos()
}

/// The current time as the clock gives it: seconds and nanoseconds since the
/// Unix epoch. When the clock reads before the epoch, or later than a
/// `Timestamp` can hold, the time given is the epoch itself.
pub(crate) fn now() -> (r: Timestamp)
    ensures
        r.secs >= 0,
        r.nanos < 1_000_000_000,
{
    let reading = system_now();
    match since_epoch(&reading) {
        Some(d) => {
            let secs = whole_secs(&d);
            if secs <= 0x7fff_ffff_ffff_ffff {
                Timestamp { secs: secs as i64, nanos: subsec_nanos(&d) }
            } else {
                Timestamp { secs: 0, nanos: 0 }
            }
        },
        None => Timestamp { secs: 0, nanos: 0 },
    }
}

/// An order of the engine: `price` and `quantity` in units of
/// [`crate::models::PRECISION`].
#[derive(Debug)]
pub struct Order {
    pub id: u64,
    pub trading_pair: TradingPair,
    pub order_type: OrderType,
    pub price: u64,
    pub quantity: u64,
    pub timestamp: Timestamp,
}

impl Clone for Order {
    fn clone(&self) -> (r: Self)
        ensures
            r == *self,
    {
        Order {
            id: self.id,
            trading_pair: self.trading_pair.clone(),
            order_type: self.order_type,
            price: self.price,
            quantity: self.quantity,
            timestamp: self.timestamp,
        }
    }
}

impl Order {
    /// An order stamped with the current time.
    pub fn stamped(
        id: u64,
        trading_pair: TradingPair,
        order_type: OrderType,
        price: u64,
        quantity: u64,
    ) -> (r: Self)
        ensures
            r.id == id,
            r.trading_pair == trading_pair,
            r.order_type == order_type,
            r.price == price,
            r.quantity == quantity,
            r.timestamp.secs >= 0,
            r.timestamp.nanos < 1_000_000_000,
    {
        Order { id, trading_pair, order_type, price, quantity, timestamp: now() }
    }
}

impl Quantified for Order {
    open spec fn qty(&self) -> u64 {
        self.quantity
    }

    open spec fn with_qty(&self, q: u64) -> Self {
        Order { quantity: q, ..*self }
    }

    open spec fn price_of(&self) -> u64 {
        self.price
    }

    proof fn lemma_with_qty(&self, q: u64) {
    }

    fn quantity(&self) -> (q: u64) {
        self.quantity
    }

    fn set_quantity(&mut self, q: u64) {
        self.quantity = q;
    }
}

/// A trade between a buy order and a sell order.
#[derive(Debug)]
pub struct Trade {
    pub id: u64,
    pub trading_pair: TradingPair,
    pub buy_order_id: u64,
    pub sell_order_id: u64,
    pub price: u64,
    pub quantity: u64,
    pub timestamp: Timestamp,
}

impl Clone for Trade {
    fn clone(&self) -> (r: Self)
        ensures
            r == *self,
    {
        Trade {
            id: self.id,
            trading_pair: self.trading_pair.clone(),
            buy_order_id: self.buy_order_id,
            sell_order_id: self.sell_order_id,
            price: self.price,
            quantity: self.quantity,
            timestamp: self.timestamp,
        }
    }
}

/// A new price seen for a pair.
#[derive(Debug)]
pub struct PriceUpdate {
    pub trading_pair: TradingPair,
    pub price: u64,
    pub timestamp: Timestamp,
}

/// What the contracts see of a trade: buy order id, sell order id, price,
/// quantity.
pub open spec fn trade_terms(t: Trade) -> (u64, u64, u64, u64) {
    (t.buy_order_id, t.sell_order_id, t.price, t.quantity)
}

} // verus!
