//! The engine with a matching step: besides orders and queries it takes
//! requests to match a pair's book and new prices seen for a pair.

use vstd::prelude::*;
use crate::engine::engine_core::{
    books_changed, find_book, fresh, matched, pair_key, rested, Reply,
};
use crate::engine::models::{Order, PriceUpdate, TradingPair};
use crate::engine::order_book::{entries, price_or_default, SimpleOrderBook};
use crate::side::{count_orders, highest_price, lowest_price};

verus! {

/// A message to the engine. The answer, if any, is what [`Engine::handle`]
/// returns.
#[derive(Debug)]
pub enum Message {
    NewOrder(Order),
    PriceUpdate(PriceUpdate),
    MatchOrders(TradingPair),
    GetPrice(TradingPair),
    GetOrderBook(TradingPair),
    Shutdown,
}

/// The engine: one book per trading pair.
pub struct Engine {
    order_books: crate::engine::engine_core::Engine,
}

impl Engine {
    /// The books, in the order they were made.
    pub closed spec fn books(&self) -> Seq<SimpleOrderBook> {
        self.order_books.books()
    }

    /// Every book is consistent.
    pub closed spec fn wf(&self) -> bool {
        self.order_books.wf()
    }

    /// An engine with no book.
    pub fn new() -> (r: Self)
        ensures
            r.wf(),
            r.books() == Seq::<SimpleOrderBook>::empty(),
    {
        Engine { order_books: crate::engine::engine_core::Engine::new() }
    }

    /// The price of `pair`: that of its book, which is made empty if there
    /// was none.
    pub fn process_get_price(&mut self, trading_pair: TradingPair) -> (price: Option<crate::models::MidPrice>)
        requires
            old(self).wf(),
        ensures
            final(self).wf(),
            find_book(old(self).books(), pair_key(trading_pair)) matches Some(i) ==> final(self).books() == old(self).books()
                && price == Some(price_or_default(highest_price(old(self).books()[i].bids()), lowest_price(old(self).books()[i].asks()))),
            find_book(old(self).books(), pair_key(trading_pair)) is None ==> final(self).books().len() == old(self).books().len() + 1
                && final(self).books().subrange(0, old(self).books().len() as int) == old(self).books()
                && fresh(final(self).books()[old(self).books().len() as int], trading_pair)
                && price == Some(price_or_default(None, None)),
    {
        self.order_books.process_get_price(trading_pair)
    }

    /// The levels of the book for `pair`; none if there is no such book.
    pub fn process_get_order_book(&self, trading_pair: TradingPair) -> (r: (Vec<crate::engine::api::OrderBookEntry>, Vec<crate::engine::api::OrderBookEntry>))
        ensures
            find_book(self.books(), pair_key(trading_pair)) matches Some(i) ==> r.0@ == entries(self.books()[i].bids()).reverse()
                && r.1@ == entries(self.books()[i].asks()),
            find_book(self.books(), pair_key(trading_pair)) is None ==> r.0@.len() == 0 && r.1@.len() == 0,
    {
        self.order_books.process_get_order_book(trading_pair)
    }

    /// One step of the message loop: applies the message and gives the
    /// answer to send back. A new price seen is only to be reported; a
    /// request to match gives the trades made, or nothing when the pair has
    /// no book (or more orders than trades can be numbered for).
    pub fn handle(&mut self, message: Message) -> (reply: Reply)
        requires
            old(self).wf(),
        ensures
            final(self).wf(),
            match message {
                Message::NewOrder(order) => reply is Done && books_changed(
                    old(self).books(),
                    final(self).books(),
                    find_book(old(self).books(), pair_key(order.trading_pair)),
                    |b: SimpleOrderBook, b2: SimpleOrderBook| rested(b, b2, order),
                    |b2: SimpleOrderBook| exists|b: SimpleOrderBook| fresh(b, order.trading_pair) && rested(b, b2, order),
                ),
                Message::PriceUpdate(_) => reply is Done && final(self).books() == old(self).books(),
                Message::MatchOrders(pair) => match find_book(old(self).books(), pair_key(pair)) {
                    Some(i) => if count_orders(old(self).books()[i].bids()) + count_orders(old(self).books()[i].asks()) <= u64::MAX {
                        reply matches Reply::Trades(trades) && final(self).books().len() == old(self).books().len()
                            && (forall|j: int| 0 <= j < old(self).books().len() && j != i ==> final(self).books()[j] == old(self).books()[j])
                            && matched(old(self).books()[i], final(self).books()[i], trades@)
                    } else {
                        reply is Done && final(self).books() == old(self).books()
                    },
                    None => reply is Done && final(self).books() == old(self).books(),
                },
                Message::GetPrice(pair) => match find_book(old(self).books(), pair_key(pair)) {
                    Some(i) => final(self).books() == old(self).books() && reply == Reply::Price(
                        Some(price_or_default(highest_price(old(self).books()[i].bids()), lowest_price(old(self).books()[i].asks()))),
                    ),
                    None => final(self).books().len() == old(self).books().len() + 1
                        && final(self).books().subrange(0, old(self).books().len() as int) == old(self).books()
                        && fresh(final(self).books()[old(self).books().len() as int], pair)
                        && reply == Reply::Price(Some(price_or_default(None, None))),
                },
                Message::GetOrderBook(pair) => final(self).books() == old(self).books() && match find_book(old(self).books(), pair_key(pair)) {
                    Some(i) => reply matches Reply::OrderBook(b, a) && b@ == entries(old(self).books()[i].bids()).reverse()
                        && a@ == entries(old(self).books()[i].asks()),
                    None => reply matches Reply::OrderBook(b, a) && b@.len() == 0 && a@.len() == 0,
                },
                Message::Shutdown => reply is Stop && final(self).books() == old(self).books(),
            },
    {
        match message {
            Message::NewOrder(order) => {
                self.order_books.add_order(order);
                Reply::Done
            },
            Message::PriceUpdate(_update) => Reply::Done,
            Message::MatchOrders(trading_pair) => match self.order_books.match_pair(&trading_pair) {
                Some(trades) => Reply::Trades(trades),
                None => Reply::Done,
            },
            Message::GetPrice(trading_pair) => Reply::Price(self.process_get_price(trading_pair)),
            Message::GetOrderBook(trading_pair) => {
                let (bids, asks) = self.process_get_order_book(trading_pair);
                Reply::OrderBook(bids, asks)
            },
            Message::Shutdown => Reply::Stop,
        }
    }
}

} // verus!
