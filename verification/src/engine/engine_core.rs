//! The engine's state and the step of its message loop: one book per
//! trading pair, made on first use; each message changes the books and
//! gives the answer to send back.

use vstd::prelude::*;
use crate::engine::api::OrderBookEntry;
use crate::engine::models::{trade_terms, Order, OrderType, Trade, TradingPair};
use crate::engine::order_book::{entries, match_book, price_or_default, SimpleOrderBook};
use crate::side::count_orders;
use crate::models::MidPrice;
use crate::side::{highest_price, lowest_price, rest_order};

verus! {

/// A message to the engine. The answer, if any, is what [`Engine::handle`]
/// returns.
#[derive(Debug)]
pub enum Message {
    NewOrder(Order),
    GetPrice(TradingPair),
    GetOrderBook(TradingPair),
    GetTradeHistory(TradingPair),
    Shutdown,
}

/// The answer to a message.
#[derive(Debug)]
pub enum Reply {
    /// Nothing to answer.
    Done,
    Price(Option<MidPrice>),
    OrderBook(Vec<OrderBookEntry>, Vec<OrderBookEntry>),
    Trades(Vec<Trade>),
    /// The loop stops.
    Stop,
}

/// The key a pair is found by: its base and its quote.
pub open spec fn pair_key(p: TradingPair) -> (Seq<char>, Seq<char>) {
    (p.base@, p.quote@)
}

/// Position of the first book made for the pair `key`.
pub open spec fn find_book(books: Seq<SimpleOrderBook>, key: (Seq<char>, Seq<char>)) -> Option<int>
    decreases books.len(),
{
    if books.len() == 0 {
        None
    } else {
        match find_book(books.drop_last(), key) {
            Some(i) => Some(i),
            None => if pair_key(books.last().pair()) == key {
                Some(books.len() - 1)
            } else {
                None
            },
        }
    }
}

pub proof fn lemma_find_book(books: Seq<SimpleOrderBook>, key: (Seq<char>, Seq<char>))
    ensures
        find_book(books, key) matches Some(i) ==> 0 <= i < books.len() && pair_key(books[i].pair()) == key
            && forall|j: int| 0 <= j < i ==> pair_key(#[trigger] books[j].pair()) != key,
        find_book(books, key) is None ==> forall|j: int| 0 <= j < books.len() ==> pair_key(#[trigger] books[j].pair()) != key,
    decreases books.len(),
{
    if books.len() > 0 {
        lemma_find_book(books.drop_last(), key);
        assert forall|j: int| 0 <= j < books.len() - 1 implies #[trigger] books[j].pair() == books.drop_last()[j].pair() by {}
    }
}

pub proof fn lemma_find_book_first(books: Seq<SimpleOrderBook>, key: (Seq<char>, Seq<char>), i: int)
    requires
        0 <= i < books.len(),
        pair_key(books[i].pair()) == key,
        forall|j: int| 0 <= j < i ==> pair_key(#[trigger] books[j].pair()) != key,
    ensures
        find_book(books, key) == Some(i),
{
    lemma_find_book(books, key);
}

/// `b2` is `b` after `order` rests on it.
pub open spec fn rested(b: SimpleOrderBook, b2: SimpleOrderBook, order: Order) -> bool {
    &&& b2.wf()
    &&& b2.pair() == b.pair()
    &&& b2.history() == b.history()
    &&& order.order_type == OrderType::Buy ==> b2.bids() == rest_order(b.bids(), order.price, order) && b2.asks() == b.asks()
    &&& order.order_type == OrderType::Sell ==> b2.asks() == rest_order(b.asks(), order.price, order) && b2.bids() == b.bids()
}

/// `b2` is `b` after matching, which made `trades`.
pub open spec fn matched(b: SimpleOrderBook, b2: SimpleOrderBook, trades: Seq<Trade>) -> bool {
    let m = match_book(b.bids(), b.asks());
    &&& b2.wf()
    &&& b2.pair() == b.pair()
    &&& b2.bids() == m.0
    &&& b2.asks() == m.1
    &&& trades.len() == m.2.len()
    &&& forall|k: int| 0 <= k < trades.len() ==> {
        &&& trade_terms(#[trigger] trades[k]) == m.2[k]
        &&& trades[k].id == k + 1
        &&& trades[k].trading_pair == b.pair()
    }
    &&& b2.history() == b.history() + trades
}

/// `b` is a book for `pair` with no order and no trade.
pub open spec fn fresh(b: SimpleOrderBook, pair: TradingPair) -> bool {
    &&& b.wf()
    &&& b.pair() == pair
    &&& b.bids() == Seq::<(u64, Seq<Order>)>::empty()
    &&& b.asks() == Seq::<(u64, Seq<Order>)>::empty()
    &&& b.history() == Seq::<Trade>::empty()
}

/// `after` is `before` with the book at `i` replaced by one that `changed`
/// relates to the old one, or, when there was no book (`i` is `None`), with
/// a new book that `made` describes appended.
pub open spec fn books_changed(
    before: Seq<SimpleOrderBook>,
    after: Seq<SimpleOrderBook>,
    i: Option<int>,
    changed: spec_fn(SimpleOrderBook, SimpleOrderBook) -> bool,
    made: spec_fn(SimpleOrderBook) -> bool,
) -> bool {
    match i {
        Some(i) => {
            &&& after.len() == before.len()
            &&& forall|j: int| 0 <= j < before.len() && j != i ==> after[j] == before[j]
            &&& changed(before[i], after[i])
        },
        None => {
            &&& after.len() == before.len() + 1
            &&& forall|j: int| 0 <= j < before.len() ==> after[j] == before[j]
            &&& made(after[before.len() as int])
        },
    }
}

/// The engine: one book per trading pair.
pub struct Engine {
    order_books: Vec<SimpleOrderBook>,
}

impl Engine {
    /// The books, in the order they were made.
    pub closed spec fn books(&self) -> Seq<SimpleOrderBook> {
        self.order_books@
    }

    /// Every book is consistent.
    pub closed spec fn wf(&self) -> bool {
        forall|i: int| 0 <= i < self.order_books@.len() ==> (#[trigger] self.order_books@[i]).wf()
    }

    pub proof fn lemma_wf(&self)
        requires
            self.wf(),
        ensures
            forall|i: int| 0 <= i < self.books().len() ==> (#[trigger] self.books()[i]).wf(),
    {
    }

    /// An engine with no book.
    pub fn new() -> (r: Self)
        ensures
            r.wf(),
            r.books() == Seq::<SimpleOrderBook>::empty(),
    {
        Engine { order_books: Vec::new() }
    }

    /// The position of the book for `pair`.
    fn find(&self, pair: &TradingPair) -> (r: Option<usize>)
        ensures
            r matches Some(i) ==> find_book(self.books(), pair_key(*pair)) == Some(i as int) && i < self.books().len(),
            r is None ==> find_book(self.books(), pair_key(*pair)) is None,
    {
        let mut i: usize = 0;
        while i < self.order_books.len()
            invariant
                i <= self.order_books.len(),
                forall|j: int| 0 <= j < i ==> pair_key(#[trigger] self.books()[j].pair()) != pair_key(*pair),
            decreases self.order_books.len() - i,
        {
            if self.order_books[i].pair_is(pair) {
                proof {
                    lemma_find_book_first(self.books(), pair_key(*pair), i as int);
                }
                return Some(i);
            }
            i = i + 1;
        }
        proof {
            lemma_find_book(self.books(), pair_key(*pair));
            if let Some(k) = find_book(self.books(), pair_key(*pair)) {
                assert(pair_key(self.books()[k].pair()) == pair_key(*pair));
            }
        }
        None
    }

    /// The position of the book for `pair`, made empty if there was none.
    fn get_or_create(&mut self, pair: &TradingPair) -> (r: usize)
        requires
            old(self).wf(),
        ensures
            final(self).wf(),
            r < final(self).books().len(),
            find_book(old(self).books(), pair_key(*pair)) matches Some(i) ==> r == i && final(self).books() == old(self).books(),
            find_book(old(self).books(), pair_key(*pair)) is None ==> r == old(self).books().len()
                && final(self).books().len() == old(self).books().len() + 1
                && final(self).books().subrange(0, r as int) == old(self).books()
                && fresh(final(self).books()[r as int], *pair),
    {
        match self.find(pair) {
            Some(i) => {
                proof {
                    lemma_find_book(self.books(), pair_key(*pair));
                }
                i
            },
            None => {
                let book = SimpleOrderBook::new(pair.clone());
                self.order_books.push(book);
                assert(self.books().subrange(0, old(self).books().len() as int) =~= old(self).books());
                self.order_books.len() - 1
            },
        }
    }

    /// Rests a new order on the book of its pair, made if there was none.
    pub fn add_order(&mut self, order: Order)
        requires
            old(self).wf(),
        ensures
            final(self).wf(),
            books_changed(
                old(self).books(),
                final(self).books(),
                find_book(old(self).books(), pair_key(order.trading_pair)),
                |b: SimpleOrderBook, b2: SimpleOrderBook| rested(b, b2, order),
                |b2: SimpleOrderBook| exists|b: SimpleOrderBook| fresh(b, order.trading_pair) && rested(b, b2, order),
            ),
    {
        let ghost found = find_book(self.books(), pair_key(order.trading_pair));
        let i = self.get_or_create(&order.trading_pair);
        let ghost mid = self.books();
        assert(mid[i as int].wf());
        self.order_books[i].add_order(order);
        proof {
            assert forall|j: int| 0 <= j < self.order_books@.len() implies (#[trigger] self.order_books@[j]).wf() by {
                if j != i {
                    assert(self.order_books@[j] == mid[j]);
                }
            }
            if found is None {
                assert(forall|j: int| 0 <= j < old(self).books().len() ==> self.books()[j] == mid.subrange(0, i as int)[j]);
            }
        }
    }

    /// The price of `pair`: that of its book, which is made empty if there
    /// was none (and then gives [`crate::engine::order_book::DEFAULT_PRICE`]).
    pub fn process_get_price(&mut self, trading_pair: TradingPair) -> (price: Option<MidPrice>)
        requires
            old(self).wf(),
        ensures
            final(self).wf(),
            find_book(old(self).books(), pair_key(trading_pair)) matches Some(i) ==> final(self).books() == old(self).books()
                && price == Some(price_or_default(highest_price(old(self).books()[i].bids()), lowest_price(old(self).books()[i].asks()))),
            find_book(old(self).books(), pair_key(trading_pair)) is None ==> final(self).books().len() == old(self).books().len() + 1
                && final(self).books().subrange(0, old(self).books().len() as int) == old(self).books()
                && fresh(final(self).books()[old(self).books().len() as int], trading_pair)
                && price == Some(price_or_default(None, None)),
    {
        let i = self.get_or_create(&trading_pair);
        self.order_books[i].get_current_price()
    }

    /// The levels of the book for `pair`; none if there is no such book.
    pub fn process_get_order_book(&self, trading_pair: TradingPair) -> (r: (Vec<OrderBookEntry>, Vec<OrderBookEntry>))
        ensures
            find_book(self.books(), pair_key(trading_pair)) matches Some(i) ==> r.0@ == entries(self.books()[i].bids()).reverse()
                && r.1@ == entries(self.books()[i].asks()),
            find_book(self.books(), pair_key(trading_pair)) is None ==> r.0@.len() == 0 && r.1@.len() == 0,
    {
        match self.find(&trading_pair) {
            Some(i) => self.order_books[i].get_order_book(),
            None => (Vec::new(), Vec::new()),
        }
    }

    /// The trades of the book for `pair`; none if there is no such book.
    pub fn process_get_trade_history(&self, trading_pair: TradingPair) -> (r: Vec<Trade>)
        ensures
            find_book(self.books(), pair_key(trading_pair)) matches Some(i) ==> r@ == self.books()[i].history(),
            find_book(self.books(), pair_key(trading_pair)) is None ==> r@.len() == 0,
    {
        match self.find(&trading_pair) {
            Some(i) => self.order_books[i].get_trade_history(),
            None => Vec::new(),
        }
    }

    /// Matches the book for `pair`, if there is one and its orders can be
    /// numbered as trades in a `u64`; `None`, with nothing changed, otherwise.
    pub fn match_pair(&mut self, trading_pair: &TradingPair) -> (r: Option<Vec<Trade>>)
        requires
            old(self).wf(),
        ensures
            final(self).wf(),
            match find_book(old(self).books(), pair_key(*trading_pair)) {
                Some(i) => if count_orders(old(self).books()[i].bids()) + count_orders(old(self).books()[i].asks()) <= u64::MAX {
                    r matches Some(trades) && final(self).books().len() == old(self).books().len()
                        && (forall|j: int| 0 <= j < old(self).books().len() && j != i ==> final(self).books()[j] == old(self).books()[j])
                        && matched(old(self).books()[i], final(self).books()[i], trades@)
                } else {
                    r is None && final(self).books() == old(self).books()
                },
                None => r is None && final(self).books() == old(self).books(),
            },
    {
        match self.find(trading_pair) {
            Some(i) => {
                let (bids, asks) = self.order_books[i].order_counts_wide();
                if bids <= u64::MAX as u128 && asks <= u64::MAX as u128 && bids + asks <= u64::MAX as u128 {
                    let ghost before = self.books();
                    assert(before[i as int].wf());
                    let trades = self.order_books[i].match_orders();
                    proof {
                        assert forall|j: int| 0 <= j < self.order_books@.len() implies (#[trigger] self.order_books@[j]).wf() by {
                            if j != i {
                                assert(self.order_books@[j] == before[j]);
                            }
                        }
                    }
                    Some(trades)
                } else {
                    None
                }
            },
            None => None,
        }
    }

    /// One step of the message loop: applies the message and gives the
    /// answer to send back.
    pub fn handle(&mut self, message: Message) -> (reply: Reply)
        requires
            old(self).wf(),
        ensures
            final(self).wf(),
            match message {
                Message::NewOrder(order) => reply is Done && books_changed(
                    old(self).books(),
                    final(self).books(),
                    find_book(old(self).books(), pair_key(order.trading_pair)),
                    |b: SimpleOrderBook, b2: SimpleOrderBook| rested(b, b2, order),
                    |b2: SimpleOrderBook| exists|b: SimpleOrderBook| fresh(b, order.trading_pair) && rested(b, b2, order),
                ),
                Message::GetPrice(pair) => match find_book(old(self).books(), pair_key(pair)) {
                    Some(i) => final(self).books() == old(self).books() && reply == Reply::Price(
                        Some(price_or_default(highest_price(old(self).books()[i].bids()), lowest_price(old(self).books()[i].asks()))),
                    ),
                    None => final(self).books().len() == old(self).books().len() + 1
                        && final(self).books().subrange(0, old(self).books().len() as int) == old(self).books()
                        && fresh(final(self).books()[old(self).books().len() as int], pair)
                        && reply == Reply::Price(Some(price_or_default(None, None))),
                },
                Message::GetOrderBook(pair) => final(self).books() == old(self).books() && match find_book(old(self).books(), pair_key(pair)) {
                    Some(i) => reply matches Reply::OrderBook(b, a) && b@ == entries(old(self).books()[i].bids()).reverse()
                        && a@ == entries(old(self).books()[i].asks()),
                    None => reply matches Reply::OrderBook(b, a) && b@.len() == 0 && a@.len() == 0,
                },
                Message::GetTradeHistory(pair) => final(self).books() == old(self).books() && match find_book(old(self).books(), pair_key(pair)) {
                    Some(i) => reply matches Reply::Trades(t) && t@ == old(self).books()[i].history(),
                    None => reply matches Reply::Trades(t) && t@.len() == 0,
                },
                Message::Shutdown => reply is Stop && final(self).books() == old(self).books(),
            },
    {
        match message {
            Message::NewOrder(order) => {
                self.add_order(order);
                Reply::Done
            },
            Message::GetPrice(trading_pair) => Reply::Price(self.process_get_price(trading_pair)),
            Message::GetOrderBook(trading_pair) => {
                let (bids, asks) = self.process_get_order_book(trading_pair);
                Reply::OrderBook(bids, asks)
            },
            Message::GetTradeHistory(trading_pair) => Reply::Trades(self.process_get_trade_history(trading_pair)),
            Message::Shutdown => Reply::Stop,
        }
    }
}

} // verus!
