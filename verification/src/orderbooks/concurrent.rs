//! An order book with the same matching as the simple book: a buy meets the
//! asks from the lowest price up, a sell meets the bids from the highest
//! price down, oldest order first at each price; what is left of an order
//! rests on its own side. Its state after each order is
//! [`crate::orderbooks::simple::book_after`], so the laws proved there
//! (quantity kept, book left uncrossed, ...) hold of it too.

use vstd::prelude::*;
use crate::level::{PriceLevel, Quantified};
use crate::models::{mid_price, mid_price_of, MidPrice, Order, OrderType, TradingPair};
use crate::orderbooks::simple::{book_after, sides_ok};
use crate::side::{
    count_orders, count_resting, count_resting_wide, fill_highest_first, fill_lowest_first, highest_price,
    lemma_fill_from_highest, lemma_fill_from_lowest, lemma_rest_order, lowest_price, rest_at,
    lemma_fill_from_highest_priced, lemma_fill_from_lowest_priced, lemma_rest_order_priced,
    prices_match, side_view, side_wf,
};

verus! {

/// A book for one trading pair.
pub struct ConcurrentOrderBook {
    trading_pair: TradingPair,
    /// Levels in increasing price order.
    buy_levels: Vec<PriceLevel<Order>>,
    /// Levels in increasing price order.
    sell_levels: Vec<PriceLevel<Order>>,
}

impl ConcurrentOrderBook {
    /// The bids, level by level in increasing price order.
    pub closed spec fn bids(&self) -> Seq<(u64, Seq<Order>)> {
        side_view(self.buy_levels@)
    }

    /// The asks, level by level in increasing price order.
    pub closed spec fn asks(&self) -> Seq<(u64, Seq<Order>)> {
        side_view(self.sell_levels@)
    }

    /// The pair the book was made for.
    pub closed spec fn pair(&self) -> TradingPair {
        self.trading_pair
    }

    /// The book is consistent: sorted sides with no empty level, and every
    /// order at the level of the price it was placed at.
    pub closed spec fn wf(&self) -> bool {
        &&& side_wf(self.buy_levels@)
        &&& side_wf(self.sell_levels@)
        &&& prices_match(self.bids())
        &&& prices_match(self.asks())
    }

    pub proof fn lemma_wf(&self)
        requires
            self.wf(),
        ensures
            sides_ok(self.bids(), self.asks()),
            prices_match(self.bids()),
            prices_match(self.asks()),
    {
    }

    /// An empty book for `trading_pair`.
    pub fn new(trading_pair: TradingPair) -> (r: Self)
        ensures
            r.wf(),
            r.pair() == trading_pair,
            r.bids() == Seq::<(u64, Seq<Order>)>::empty(),
            r.asks() == Seq::<(u64, Seq<Order>)>::empty(),
    {
        let r = ConcurrentOrderBook { trading_pair, buy_levels: Vec::new(), sell_levels: Vec::new() };
        assert(r.bids() =~= Seq::<(u64, Seq<Order>)>::empty());
        assert(r.asks() =~= Seq::<(u64, Seq<Order>)>::empty());
        r
    }

    /// Adds an order: it trades against the opposite side as [`book_after`]
    /// says (as the simple book does), and what is left of it rests on its own
    /// side.
    pub fn add_order(&mut self, order: Order)
        requires
            old(self).wf(),
        ensures
            final(self).wf(),
            final(self).pair() == old(self).pair(),
            (final(self).bids(), final(self).asks()) == book_after(old(self).bids(), old(self).asks(), order),
    {
        self.process_order(order);
    }

    fn process_order(&mut self, incoming_order: Order)
        requires
            old(self).wf(),
        ensures
            final(self).wf(),
            final(self).pair() == old(self).pair(),
            (final(self).bids(), final(self).asks()) == book_after(old(self).bids(), old(self).asks(), incoming_order),
    {
        let mut incoming_order = incoming_order;
        let ghost original = incoming_order;
        let remaining = match incoming_order.order_type {
            OrderType::Buy => {
                proof {
                    lemma_fill_from_lowest(self.asks(), incoming_order.quantity as nat, incoming_order.price);
                    lemma_fill_from_lowest_priced(self.asks(), incoming_order.quantity as nat, incoming_order.price);
                }
                fill_lowest_first(&mut self.sell_levels, incoming_order.quantity, incoming_order.price)
            },
            OrderType::Sell => {
                proof {
                    lemma_fill_from_highest(self.bids(), incoming_order.quantity as nat, incoming_order.price);
                    lemma_fill_from_highest_priced(self.bids(), incoming_order.quantity as nat, incoming_order.price);
                }
                fill_highest_first(&mut self.buy_levels, incoming_order.quantity, incoming_order.price)
            },
        };
        if remaining > 0 {
            incoming_order.set_quantity(remaining);
            match incoming_order.order_type {
                OrderType::Buy => {
                    rest_at(&mut self.buy_levels, incoming_order.price, incoming_order);
                    proof {
                        lemma_rest_order(old(self).bids(), original.price, Order { quantity: remaining, ..original });
                        lemma_rest_order_priced(old(self).bids(), original.price, Order { quantity: remaining, ..original });
                    }
                },
                OrderType::Sell => {
                    rest_at(&mut self.sell_levels, incoming_order.price, incoming_order);
                    proof {
                        lemma_rest_order(old(self).asks(), original.price, Order { quantity: remaining, ..original });
                        lemma_rest_order_priced(old(self).asks(), original.price, Order { quantity: remaining, ..original });
                    }
                },
            }
        }
    }

    /// The best bid (highest buy price) and best ask (lowest sell price).
    pub fn get_best_bid_ask(&self) -> (r: (Option<u64>, Option<u64>))
        ensures
            r == (highest_price(self.bids()), lowest_price(self.asks())),
    {
        let bid = if self.buy_levels.len() > 0 {
            Some(self.buy_levels[self.buy_levels.len() - 1].price)
        } else {
            None
        };
        let ask = if self.sell_levels.len() > 0 {
            Some(self.sell_levels[0].price)
        } else {
            None
        };
        (bid, ask)
    }

    /// The mid price: mean of best bid and best ask, or the one that exists.
    pub fn get_current_price(&self) -> (r: Option<MidPrice>)
        ensures
            r == mid_price(highest_price(self.bids()), lowest_price(self.asks())),
    {
        let (bid, ask) = self.get_best_bid_ask();
        mid_price_of(bid, ask)
    }

    /// Numbers of bids and of asks resting on the book, counted wide enough
    /// never to overflow.
    pub fn order_counts_wide(&self) -> (n: (u128, u128))
        ensures
            n.0 == count_orders(self.bids()),
            n.1 == count_orders(self.asks()),
    {
        (count_resting_wide(&self.buy_levels), count_resting_wide(&self.sell_levels))
    }

    /// Number of orders resting on the book.
    pub fn get_active_orders_count(&self) -> (n: usize)
        requires
            count_orders(self.bids()) + count_orders(self.asks()) <= usize::MAX,
        ensures
            n == count_orders(self.bids()) + count_orders(self.asks()),
    {
        let buy_count = count_resting(&self.buy_levels);
        let sell_count = count_resting(&self.sell_levels);
        buy_count + sell_count
    }
}

} // verus!
