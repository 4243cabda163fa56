//! The logic of the order server: a registry of books by trading pair, made
//! on first use, and the answers of its endpoints.

use vstd::prelude::*;
use crate::models::{
    order_requested, request_error, MidPrice, Order, PlaceOrderRequest,
    PlaceOrderResponse, PriceResponse, TradingPair,
};

verus! {

/// The books of the server, one per trading pair, in the order they were
/// made.
pub struct AppState<B> {
    orderbooks: Vec<(TradingPair, B)>,
}

/// The key a pair is found by: its base and its quote.
pub open spec fn key_of(p: TradingPair) -> (Seq<char>, Seq<char>) {
    (p.base@, p.quote@)
}

impl<B> AppState<B> {
    /// The pairs that have books, in the order the books were made.
    pub closed spec fn pairs(&self) -> Seq<(Seq<char>, Seq<char>)> {
        self.orderbooks@.map_values(|e: (TradingPair, B)| key_of(e.0))
    }

    /// The books, in the order they were made.
    pub closed spec fn books(&self) -> Seq<B> {
        self.orderbooks@.map_values(|e: (TradingPair, B)| e.1)
    }

    /// No pair has two books.
    pub open spec fn wf(&self) -> bool {
        forall|i: int, j: int| 0 <= i < j < self.pairs().len() ==> self.pairs()[i] != self.pairs()[j]
    }

    /// A registry with no book.
    /// A registry holds at most one book per pair: two positions holding the
    /// same pair are one position, so every look-up of a pair finds the same
    /// book. Pairs and books are held side by side.
    pub proof fn lemma_one_book_per_pair(&self, i: int, j: int)
        requires
            self.wf(),
            0 <= i < self.pairs().len(),
            0 <= j < self.pairs().len(),
            self.pairs()[i] == self.pairs()[j],
        ensures
            i == j,
            self.books().len() == self.pairs().len(),
    {
    }

    pub fn new() -> (r: Self)
        ensures
            r.wf(),
            r.pairs() == Seq::<(Seq<char>, Seq<char>)>::empty(),
            r.books() == Seq::<B>::empty(),
    {
        let r = AppState { orderbooks: Vec::new() };
        assert(r.pairs() =~= Seq::<(Seq<char>, Seq<char>)>::empty());
        assert(r.books() =~= Seq::<B>::empty());
        r
    }

    /// The book for `trading_pair`, if there is one.
    pub fn get_orderbook(&self, trading_pair: &TradingPair) -> (r: Option<&B>)
        ensures
            r is None ==> !self.pairs().contains(key_of(*trading_pair)),
            r matches Some(b) ==> exists|i: int| 0 <= i < self.pairs().len() && self.pairs()[i] == key_of(*trading_pair) && *b == self.books()[i],
    {
        let mut i: usize = 0;
        while i < self.orderbooks.len()
            invariant
                i <= self.orderbooks.len(),
                forall|j: int| 0 <= j < i ==> self.pairs()[j] != key_of(*trading_pair),
            decreases self.orderbooks.len() - i,
        {
            assert(self.pairs()[i as int] == key_of(self.orderbooks@[i as int].0));
            if self.orderbooks[i].0.same_as(trading_pair) {
                assert(self.books()[i as int] == self.orderbooks@[i as int].1);
                return Some(&self.orderbooks[i].1);
            }
            i = i + 1;
        }
        proof {
            assert forall|j: int| 0 <= j < self.pairs().len() implies self.pairs()[j] != key_of(*trading_pair) by {}
        }
        None
    }

    /// The book for `trading_pair`; if there is none, `factory` makes it and
    /// it is kept.
    pub fn get_or_create_orderbook<F: Fn(TradingPair) -> B>(&mut self, trading_pair: TradingPair, factory: &F) -> (r: &B)
        requires
            old(self).wf(),
            call_requires(*factory, (trading_pair,)),
        ensures
            final(self).wf(),
            final(self).pairs().contains(key_of(trading_pair)),
            old(self).pairs().contains(key_of(trading_pair)) ==> final(self).pairs() == old(self).pairs()
                && final(self).books() == old(self).books()
                && exists|i: int| 0 <= i < old(self).pairs().len() && old(self).pairs()[i] == key_of(trading_pair) && *r == old(self).books()[i],
            !old(self).pairs().contains(key_of(trading_pair)) ==> final(self).pairs() == old(self).pairs().push(key_of(trading_pair))
                && final(self).books() == old(self).books().push(*r)
                && call_ensures(*factory, (trading_pair,), *r),
    {
        let mut i: usize = 0;
        while i < self.orderbooks.len()
            invariant
                i <= self.orderbooks.len(),
                self.orderbooks@ == old(self).orderbooks@,
                self.wf(),
                forall|j: int| 0 <= j < i ==> self.pairs()[j] != key_of(trading_pair),
            decreases self.orderbooks.len() - i,
        {
            assert(self.pairs()[i as int] == key_of(self.orderbooks@[i as int].0));
            if self.orderbooks[i].0.same_as(&trading_pair) {
                assert(self.pairs()[i as int] == key_of(trading_pair));
                return &self.orderbooks[i].1;
            }
            i = i + 1;
        }
        proof {
            assert forall|j: int| 0 <= j < self.pairs().len() implies self.pairs()[j] != key_of(trading_pair) by {}
            assert(!self.pairs().contains(key_of(trading_pair)));
        }
        let key = trading_pair.clone();
        let new_book = factory(trading_pair);
        self.orderbooks.push((key, new_book));
        assert(self.pairs() =~= old(self).pairs().push(key_of(key)));
        assert(self.books() =~= old(self).books().push(self.orderbooks@.last().1));
        assert(self.pairs()[self.pairs().len() - 1] == key_of(trading_pair));
        let n = self.orderbooks.len() - 1;
        &self.orderbooks[n].1
    }
}

/// Checks an order request: the order numbered `order_id`, or the answer
/// that refuses it with the reason.
pub fn prepare_order(request: &PlaceOrderRequest, order_id: u64) -> (r: Result<Order, PlaceOrderResponse>)
    ensures
        match r {
            Ok(o) => request_error(*request) is None && order_requested(o, *request, order_id),
            Err(resp) => !resp.success && request_error(*request) == Some(resp.message@),
        },
{
    match request.to_order(order_id) {
        Ok(order) => Ok(order),
        Err(err) => Err(PlaceOrderResponse { success: false, message: err }),
    }
}

/// The answer to an order that was placed.
pub fn order_placed_response() -> (r: PlaceOrderResponse)
    ensures
        r.success,
        r.message@ == "Order placed successfully"@,
{
    PlaceOrderResponse { success: true, message: String::from_str("Order placed successfully") }
}

/// The answer to a price query for `trading_pair` (the text asked for):
/// nothing when it is not `BASE/QUOTE`.
pub fn unknown_pair_response(trading_pair: String) -> (r: PriceResponse)
    ensures
        r.trading_pair == trading_pair,
        r.price is None,
        r.bid is None,
        r.ask is None,
{
    PriceResponse { trading_pair, price: None, bid: None, ask: None }
}

/// The answer to a price query for `trading_pair` (the text asked for)
/// with the book's best bid, best ask and mid price.
pub fn quote_response(trading_pair: String, bid: Option<u64>, ask: Option<u64>, price: Option<MidPrice>) -> (r: PriceResponse)
    ensures
        r == (PriceResponse { trading_pair, price, bid, ask }),
{
    PriceResponse { trading_pair, price, bid, ask }
}

/// The sum of `i * i` for `i` below `n`.
pub open spec fn sum_of_squares(n: nat) -> nat
    decreases n,
{
    if n == 0 {
        0
    } else {
        sum_of_squares((n - 1) as nat) + ((n - 1) * (n - 1)) as nat
    }
}

/// `std::hint::black_box`: gives its argument back, unseen by the optimiser.
#[verifier::external_body]
fn black_box(x: u64) -> (r: u64)
    ensures
        r == x,
{
    std::hint::black_box(x)
}

proof fn lemma_sum_of_squares_bound(n: nat)
    requires
        n <= 1000,
    ensures
        sum_of_squares(n) <= n * 1_000_000,
    decreases n,
{
    if n > 0 {
        lemma_sum_of_squares_bound((n - 1) as nat);
        assert((n - 1) * (n - 1) <= 1_000_000) by (nonlinear_arith)
            requires n <= 1000, n >= 1;
    }
}

/// Busy work standing for the cost of handling an order: sums the squares
/// below 1000 and hands the sum to the optimiser's black box, which gives
/// it back.
pub fn simulate_cpu_latency() -> (r: u64)
    ensures
        r == sum_of_squares(1000),
{
    let mut sum: u64 = 0;
    let mut i: u64 = 0;
    while i < 1000
        invariant
            i <= 1000,
            sum == sum_of_squares(i as nat),
        decreases 1000 - i,
    {
        proof {
            lemma_sum_of_squares_bound(i as nat);
            assert(i * i <= 1_000_000) by (nonlinear_arith)
                requires i < 1000;
            assert(sum_of_squares(i as nat) <= 1_000_000_000) by (nonlinear_arith)
                requires sum_of_squares(i as nat) <= i * 1_000_000, i < 1000;
        }
        sum = sum.wrapping_add(i * i);
        i = i + 1;
    }
    black_box(sum)
}

} // verus!
