//! An order book that matches each incoming order against the opposite side,
//! best price first and oldest order first at each price, and rests what is
//! left of it on its own side.

use vstd::prelude::*;
use crate::level::{PriceLevel, Quantified};
use crate::models::{mid_price, mid_price_of, MidPrice, Order, OrderType, TradingPair};
use crate::side::{
    count_orders, count_resting, count_resting_wide, fill_from_highest, fill_from_lowest, fill_highest_first,
    fill_lowest_first, highest_price, lemma_fill_from_highest, lemma_fill_from_lowest,
    lemma_fill_from_highest_priced, lemma_fill_from_lowest_priced, lemma_rest_order,
    lemma_rest_order_priced, levels_filled, lowest_price, prices_match, rest_at, rest_order,
    side_qty, side_view, side_wf, sorted_prices,
};

verus! {

/// The book after `order` arrives: a buy fills against the asks from the
/// lowest price up to its limit, a sell against the bids from the highest
/// price down to its limit, and what is left of the order rests at its price
/// on its own side.
pub open spec fn book_after(
    bids: Seq<(u64, Seq<Order>)>,
    asks: Seq<(u64, Seq<Order>)>,
    order: Order,
) -> (Seq<(u64, Seq<Order>)>, Seq<(u64, Seq<Order>)>) {
    match order.order_type {
        OrderType::Buy => {
            let (a, rem) = fill_from_lowest(asks, order.quantity as nat, order.price);
            (
                if rem > 0 {
                    rest_order(bids, order.price, Order { quantity: rem as u64, ..order })
                } else {
                    bids
                },
                a,
            )
        },
        OrderType::Sell => {
            let (b, rem) = fill_from_highest(bids, order.quantity as nat, order.price);
            (
                b,
                if rem > 0 {
                    rest_order(asks, order.price, Order { quantity: rem as u64, ..order })
                } else {
                    asks
                },
            )
        },
    }
}

/// The quantity of `order` that trades when it arrives.
pub open spec fn traded(
    bids: Seq<(u64, Seq<Order>)>,
    asks: Seq<(u64, Seq<Order>)>,
    order: Order,
) -> nat {
    match order.order_type {
        OrderType::Buy => (order.quantity - fill_from_lowest(asks, order.quantity as nat, order.price).1) as nat,
        OrderType::Sell => (order.quantity - fill_from_highest(bids, order.quantity as nat, order.price).1) as nat,
    }
}

/// The best bid is below the best ask, or a side is empty.
pub open spec fn uncrossed(bids: Seq<(u64, Seq<Order>)>, asks: Seq<(u64, Seq<Order>)>) -> bool {
    bids.len() == 0 || asks.len() == 0 || bids.last().0 < asks[0].0
}

/// Both sides are sorted by price with no empty level and no exhausted order.
pub open spec fn sides_ok(bids: Seq<(u64, Seq<Order>)>, asks: Seq<(u64, Seq<Order>)>) -> bool {
    &&& sorted_prices(bids)
    &&& levels_filled(bids)
    &&& sorted_prices(asks)
    &&& levels_filled(asks)
}

/// An arriving order keeps the sides sorted with no empty level, trades no
/// more than it asks for, adds at most one resting order, and moves quantity
/// only as a trade does: what trades leaves the opposite side, what does not
/// trade rests on the order's own side.
pub proof fn lemma_book_after(bids: Seq<(u64, Seq<Order>)>, asks: Seq<(u64, Seq<Order>)>, order: Order)
    requires
        sides_ok(bids, asks),
    ensures
        ({
            let (b, a) = book_after(bids, asks, order);
            let t = traded(bids, asks, order);
            &&& sides_ok(b, a)
            &&& t <= order.quantity
            &&& count_orders(b) + count_orders(a) <= count_orders(bids) + count_orders(asks) + 1
            &&& order.order_type == OrderType::Buy ==> side_qty(a) + t == side_qty(asks)
                && side_qty(b) == side_qty(bids) + order.quantity - t
            &&& order.order_type == OrderType::Sell ==> side_qty(b) + t == side_qty(bids)
                && side_qty(a) == side_qty(asks) + order.quantity - t
        }),
{
    match order.order_type {
        OrderType::Buy => {
            lemma_fill_from_lowest(asks, order.quantity as nat, order.price);
            let rem = fill_from_lowest(asks, order.quantity as nat, order.price).1;
            if rem > 0 {
                lemma_rest_order(bids, order.price, Order { quantity: rem as u64, ..order });
            }
        },
        OrderType::Sell => {
            lemma_fill_from_highest(bids, order.quantity as nat, order.price);
            let rem = fill_from_highest(bids, order.quantity as nat, order.price).1;
            if rem > 0 {
                lemma_rest_order(asks, order.price, Order { quantity: rem as u64, ..order });
            }
        },
    }
}

/// Counting orders when an order arrives: its own side gains exactly one
/// order when a remainder of it rests and none otherwise; the opposite side
/// never gains an order (it loses those the order filled whole), and is left
/// as it was when nothing trades.
pub proof fn lemma_order_count(bids: Seq<(u64, Seq<Order>)>, asks: Seq<(u64, Seq<Order>)>, order: Order)
    requires
        sides_ok(bids, asks),
    ensures
        ({
            let (b, a) = book_after(bids, asks, order);
            let t = traded(bids, asks, order);
            let rested: nat = if t < order.quantity { 1 } else { 0 };
            &&& order.order_type == OrderType::Buy ==> count_orders(b) == count_orders(bids) + rested
                && count_orders(a) <= count_orders(asks)
                && (t == 0 ==> a == asks)
            &&& order.order_type == OrderType::Sell ==> count_orders(a) == count_orders(asks) + rested
                && count_orders(b) <= count_orders(bids)
                && (t == 0 ==> b == bids)
        }),
{
    match order.order_type {
        OrderType::Buy => {
            lemma_fill_from_lowest(asks, order.quantity as nat, order.price);
            let rem = fill_from_lowest(asks, order.quantity as nat, order.price).1;
            if rem > 0 {
                lemma_rest_order(bids, order.price, Order { quantity: rem as u64, ..order });
            }
        },
        OrderType::Sell => {
            lemma_fill_from_highest(bids, order.quantity as nat, order.price);
            let rem = fill_from_highest(bids, order.quantity as nat, order.price).1;
            if rem > 0 {
                lemma_rest_order(asks, order.price, Order { quantity: rem as u64, ..order });
            }
        },
    }
}

/// An order that trades nothing rests whole: the book holds one order more,
/// and the best price of the order's side becomes the better of what it was
/// and the order's price.
pub proof fn lemma_untraded_order_rests(bids: Seq<(u64, Seq<Order>)>, asks: Seq<(u64, Seq<Order>)>, order: Order)
    requires
        sides_ok(bids, asks),
        order.quantity > 0,
        traded(bids, asks, order) == 0,
    ensures
        ({
            let (b, a) = book_after(bids, asks, order);
            &&& count_orders(b) + count_orders(a) == count_orders(bids) + count_orders(asks) + 1
            &&& order.order_type == OrderType::Buy ==> a == asks && highest_price(b) == Some(
                if highest_price(bids) is Some && highest_price(bids)->0 > order.price { highest_price(bids)->0 } else { order.price },
            )
            &&& order.order_type == OrderType::Sell ==> b == bids && lowest_price(a) == Some(
                if lowest_price(asks) is Some && lowest_price(asks)->0 < order.price { lowest_price(asks)->0 } else { order.price },
            )
        }),
{
    match order.order_type {
        OrderType::Buy => {
            lemma_fill_from_lowest(asks, order.quantity as nat, order.price);
            lemma_rest_order(bids, order.price, order);
            assert(Order { quantity: order.quantity, ..order } == order);
        },
        OrderType::Sell => {
            lemma_fill_from_highest(bids, order.quantity as nat, order.price);
            lemma_rest_order(asks, order.price, order);
            assert(Order { quantity: order.quantity, ..order } == order);
        },
    }
}

/// A book that is not crossed stays so when an order arrives: an order that
/// could trade further at its limit does, so what rests is priced strictly
/// inside the opposite side.
pub proof fn lemma_stays_uncrossed(bids: Seq<(u64, Seq<Order>)>, asks: Seq<(u64, Seq<Order>)>, order: Order)
    requires
        sides_ok(bids, asks),
        uncrossed(bids, asks),
    ensures
        uncrossed(book_after(bids, asks, order).0, book_after(bids, asks, order).1),
{
    match order.order_type {
        OrderType::Buy => {
            lemma_fill_from_lowest(asks, order.quantity as nat, order.price);
            let rem = fill_from_lowest(asks, order.quantity as nat, order.price).1;
            if rem > 0 {
                lemma_rest_order(bids, order.price, Order { quantity: rem as u64, ..order });
            }
        },
        OrderType::Sell => {
            lemma_fill_from_highest(bids, order.quantity as nat, order.price);
            let rem = fill_from_highest(bids, order.quantity as nat, order.price).1;
            if rem > 0 {
                lemma_rest_order(asks, order.price, Order { quantity: rem as u64, ..order });
            }
        },
    }
}

/// A book for one trading pair.
pub struct SimpleOrderBook {
    trading_pair: TradingPair,
    /// Levels in increasing price order; the best bid is the last.
    buy_orders: Vec<PriceLevel<Order>>,
    /// Levels in increasing price order; the best ask is the first.
    sell_orders: Vec<PriceLevel<Order>>,
}

impl SimpleOrderBook {
    /// The bids, level by level in increasing price order.
    pub closed spec fn bids(&self) -> Seq<(u64, Seq<Order>)> {
        side_view(self.buy_orders@)
    }

    /// The asks, level by level in increasing price order.
    pub closed spec fn asks(&self) -> Seq<(u64, Seq<Order>)> {
        side_view(self.sell_orders@)
    }

    /// The pair the book was made for.
    pub closed spec fn pair(&self) -> TradingPair {
        self.trading_pair
    }

    /// The book is consistent: sorted sides with no empty level, and every
    /// order at the level of the price it was placed at.
    pub closed spec fn wf(&self) -> bool {
        &&& side_wf(self.buy_orders@)
        &&& side_wf(self.sell_orders@)
        &&& prices_match(self.bids())
        &&& prices_match(self.asks())
    }

    pub proof fn lemma_wf(&self)
        requires
            self.wf(),
        ensures
            sides_ok(self.bids(), self.asks()),
            prices_match(self.bids()),
            prices_match(self.asks()),
    {
    }

    /// An empty book for `trading_pair`.
    pub fn new(trading_pair: TradingPair) -> (r: Self)
        ensures
            r.wf(),
            r.pair() == trading_pair,
            r.bids() == Seq::<(u64, Seq<Order>)>::empty(),
            r.asks() == Seq::<(u64, Seq<Order>)>::empty(),
    {
        let r = SimpleOrderBook { trading_pair, buy_orders: Vec::new(), sell_orders: Vec::new() };
        assert(r.bids() =~= Seq::<(u64, Seq<Order>)>::empty());
        assert(r.asks() =~= Seq::<(u64, Seq<Order>)>::empty());
        r
    }

    /// Adds an order: it trades against the opposite side as far as its limit
    /// allows, and what is left of it rests on its own side.
    pub fn add_order(&mut self, order: Order)
        requires
            old(self).wf(),
        ensures
            final(self).wf(),
            final(self).pair() == old(self).pair(),
            (final(self).bids(), final(self).asks()) == book_after(old(self).bids(), old(self).asks(), order),
    {
        self.process_order(order);
    }

    fn process_order(&mut self, order: Order)
        requires
            old(self).wf(),
        ensures
            final(self).wf(),
            final(self).pair() == old(self).pair(),
            (final(self).bids(), final(self).asks()) == book_after(old(self).bids(), old(self).asks(), order),
    {
        match order.order_type {
            OrderType::Buy => self.process_buy_order(order),
            OrderType::Sell => self.process_sell_order(order),
        }
    }

    fn process_buy_order(&mut self, buy_order: Order)
        requires
            old(self).wf(),
            buy_order.order_type == OrderType::Buy,
        ensures
            final(self).wf(),
            final(self).pair() == old(self).pair(),
            (final(self).bids(), final(self).asks()) == book_after(old(self).bids(), old(self).asks(), buy_order),
    {
        let mut buy_order = buy_order;
        let ghost original = buy_order;
        proof {
            lemma_fill_from_lowest(self.asks(), buy_order.quantity as nat, buy_order.price);
            lemma_fill_from_lowest_priced(self.asks(), buy_order.quantity as nat, buy_order.price);
        }
        let remaining = fill_lowest_first(&mut self.sell_orders, buy_order.quantity, buy_order.price);
        if remaining > 0 {
            buy_order.set_quantity(remaining);
            rest_at(&mut self.buy_orders, buy_order.price, buy_order);
            proof {
                lemma_rest_order(old(self).bids(), original.price, Order { quantity: remaining, ..original });
                lemma_rest_order_priced(old(self).bids(), original.price, Order { quantity: remaining, ..original });
            }
        }
    }

    fn process_sell_order(&mut self, sell_order: Order)
        requires
            old(self).wf(),
            sell_order.order_type == OrderType::Sell,
        ensures
            final(self).wf(),
            final(self).pair() == old(self).pair(),
            (final(self).bids(), final(self).asks()) == book_after(old(self).bids(), old(self).asks(), sell_order),
    {
        let mut sell_order = sell_order;
        let ghost original = sell_order;
        proof {
            lemma_fill_from_highest(self.bids(), sell_order.quantity as nat, sell_order.price);
            lemma_fill_from_highest_priced(self.bids(), sell_order.quantity as nat, sell_order.price);
        }
        let remaining = fill_highest_first(&mut self.buy_orders, sell_order.quantity, sell_order.price);
        if remaining > 0 {
            sell_order.set_quantity(remaining);
            rest_at(&mut self.sell_orders, sell_order.price, sell_order);
            proof {
                lemma_rest_order(old(self).asks(), original.price, Order { quantity: remaining, ..original });
                lemma_rest_order_priced(old(self).asks(), original.price, Order { quantity: remaining, ..original });
            }
        }
    }

    /// The best bid (highest buy price) and best ask (lowest sell price).
    pub fn get_best_bid_ask(&self) -> (r: (Option<u64>, Option<u64>))
        ensures
            r == (highest_price(self.bids()), lowest_price(self.asks())),
    {
        let bid = if self.buy_orders.len() > 0 {
            Some(self.buy_orders[self.buy_orders.len() - 1].price)
        } else {
            None
        };
        let ask = if self.sell_orders.len() > 0 {
            Some(self.sell_orders[0].price)
        } else {
            None
        };
        (bid, ask)
    }

    /// The mid price: mean of best bid and best ask, or the one that exists.
    pub fn get_current_price(&self) -> (r: Option<MidPrice>)
        ensures
            r == mid_price(highest_price(self.bids()), lowest_price(self.asks())),
    {
        let (bid, ask) = self.get_best_bid_ask();
        mid_price_of(bid, ask)
    }

    /// Numbers of bids and of asks resting on the book, counted wide enough
    /// never to overflow.
    pub fn order_counts_wide(&self) -> (n: (u128, u128))
        ensures
            n.0 == count_orders(self.bids()),
            n.1 == count_orders(self.asks()),
    {
        (count_resting_wide(&self.buy_orders), count_resting_wide(&self.sell_orders))
    }

    /// Number of orders resting on the book.
    pub fn get_active_orders_count(&self) -> (n: usize)
        requires
            count_orders(self.bids()) + count_orders(self.asks()) <= usize::MAX,
        ensures
            n == count_orders(self.bids()) + count_orders(self.asks()),
    {
        let buy_count = count_resting(&self.buy_orders);
        let sell_count = count_resting(&self.sell_orders);
        buy_count + sell_count
    }
}

} // verus!
