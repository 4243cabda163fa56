//! An engine book whose levels are queues with counters beside them, created
//! on first use and never removed. An arriving order matches, one resting
//! order at a time, against the best level of the opposite side within its
//! limit that reports orders, passing over levels that report none; every
//! match is a trade.
//!
//! The levels sit in a `Vec` kept sorted by price, not in a concurrent skip
//! map: a skip map hands out its values only behind shared references, while
//! a level here changes its counters and its queue in place, which needs a
//! `&mut` to it.

use vstd::prelude::*;
use crossbeam_queue::SegQueue;
use crate::engine::api::OrderBookEntry;
use crate::engine::concurrent::{fills_qty, lemma_trades_qty, trades_qty};
use crate::engine::models::{now, Order, OrderType, Trade, TradingPair};
use crate::engine::order_book::{price_or_default, price_or_default_of};
use crate::level::{all_positive, all_priced, lemma_sum_qty_first, lemma_sum_qty_push, sum_qty};
use crate::models::MidPrice;
use crate::orderbooks::lockfree::{
    first_reporting_up_to, last_reporting_down_to, lemma_first_reporting_found,
    lemma_first_reporting_none, lemma_last_reporting_found, lemma_last_reporting_none,
    lemma_match_oldest, lemma_match_oldest_priced, lemma_reported_total_bound, lemma_reported_total_take, match_oldest, reported_total, reports_orders,
};
use crate::queue::{
    lemma_wrapped_count_dec, lemma_wrapped_count_inc, lemma_wrapped_sum_add,
    lemma_wrapped_sum_sub, u64_range, wrapped_count, wrapped_sum,
};
use crate::side::{
    count_orders, highest_price, lemma_lower_bound, lemma_rest_order_priced, lemma_rest_order_qty,
    lemma_side_update, levels_positive, lowest_price, prices_match, rest_order, side_qty,
    sorted_prices,
};

verus! {

/// What a queue of engine orders holds, oldest first.
pub uninterp spec fn queued_engine_orders(q: SegQueue<Order>) -> Seq<Order>;

/// `SegQueue::new`: an empty queue.
#[verifier::external_body]
fn new_queue() -> (q: SegQueue<Order>)
    ensures
        queued_engine_orders(q) == Seq::<Order>::empty(),
{
    SegQueue::new()
}

/// `SegQueue::push`: the value joins the queue at its tail.
#[verifier::external_body]
fn push_order(q: &mut SegQueue<Order>, order: Order)
    ensures
        queued_engine_orders(*final(q)) == queued_engine_orders(*old(q)).push(order),
{
    q.push(order)
}

/// `SegQueue::pop`: the value at the head leaves the queue; `None` when the
/// queue is empty.
#[verifier::external_body]
fn pop_order(q: &mut SegQueue<Order>) -> (r: Option<Order>)
    ensures
        queued_engine_orders(*old(q)).len() == 0 ==> r is None && queued_engine_orders(*final(q))
            == queued_engine_orders(*old(q)),
        queued_engine_orders(*old(q)).len() > 0 ==> r == Some(queued_engine_orders(*old(q))[0])
            && queued_engine_orders(*final(q)) == queued_engine_orders(*old(q)).drop_first(),
{
    q.pop()
}

/// Position of the best level of the side opposite to an order limited to
/// `limit` that reports orders: for a buy the lowest-priced such level priced
/// at most `limit`, for a sell the highest-priced one priced at least `limit`.
pub open spec fn best_reporting(side: Seq<(u64, Seq<Order>)>, limit: u64, buying: bool) -> Option<int> {
    if buying {
        first_reporting_up_to(side, limit)
    } else {
        last_reporting_down_to(side, limit)
    }
}

/// An arriving order of `qty` limited to `limit` matches, one resting order
/// at a time as [`match_oldest`] says, against the best level of the
/// opposite side within its limit that reports orders (levels whose counter
/// reports none are passed over), until it is filled or no such level is
/// left. Gives the side after, what is left unfilled, and for each match the
/// resting order's id and price and the quantity matched.
pub open spec fn sweep_best(side: Seq<(u64, Seq<Order>)>, qty: nat, limit: u64, buying: bool) -> (
    Seq<(u64, Seq<Order>)>,
    nat,
    Seq<(u64, u64, u64)>,
)
    decreases qty, count_orders(side),
{
    if qty == 0 {
        (side, qty, Seq::empty())
    } else {
        match best_reporting(side, limit, buying) {
            Some(idx) => {
                if 0 <= idx < side.len() && side[idx].1.len() > 0 {
                    let (after, out, m) = match_oldest(side[idx].1, qty);
                    proof {
                        lemma_side_update(side, idx, (side[idx].0, after));
                    }
                    let r = sweep_best(side.update(idx, (side[idx].0, after)), (qty - m) as nat, limit, buying);
                    (r.0, r.1, seq![(out.id, out.price, m as u64)] + r.2)
                } else {
                    (side, qty, Seq::empty())
                }
            },
            None => (side, qty, Seq::empty()),
        }
    }
}

/// The book after `order` arrives: it sweeps the best levels of the opposite
/// side as [`sweep_best`] says, and what is left of it rests at its price on
/// its own side.
pub open spec fn book_after(
    bids: Seq<(u64, Seq<Order>)>,
    asks: Seq<(u64, Seq<Order>)>,
    order: Order,
) -> (Seq<(u64, Seq<Order>)>, Seq<(u64, Seq<Order>)>) {
    match order.order_type {
        OrderType::Buy => {
            let r = sweep_best(asks, order.quantity as nat, order.price, true);
            (
                if r.1 > 0 {
                    rest_order(bids, order.price, Order { quantity: r.1 as u64, ..order })
                } else {
                    bids
                },
                r.0,
            )
        },
        OrderType::Sell => {
            let r = sweep_best(bids, order.quantity as nat, order.price, false);
            (
                r.0,
                if r.1 > 0 {
                    rest_order(asks, order.price, Order { quantity: r.1 as u64, ..order })
                } else {
                    asks
                },
            )
        },
    }
}

/// The matches an arriving order makes, as [`sweep_best`] gives them.
pub open spec fn matches_of(
    bids: Seq<(u64, Seq<Order>)>,
    asks: Seq<(u64, Seq<Order>)>,
    order: Order,
) -> Seq<(u64, u64, u64)> {
    match order.order_type {
        OrderType::Buy => sweep_best(asks, order.quantity as nat, order.price, true).2,
        OrderType::Sell => sweep_best(bids, order.quantity as nat, order.price, false).2,
    }
}

/// `t` is the trade of the match `m` (resting id, resting price, quantity)
/// between the arriving order `order` and a resting order, numbered `id`.
pub open spec fn trade_of(t: Trade, order: Order, m: (u64, u64, u64), id: u64, pair: TradingPair) -> bool {
    &&& t.id == id
    &&& t.trading_pair == pair
    &&& t.price == m.1
    &&& t.quantity == m.2
    &&& t.buy_order_id == if order.order_type == OrderType::Buy { order.id } else { m.0 }
    &&& t.sell_order_id == if order.order_type == OrderType::Buy { m.0 } else { order.id }
}

/// Sweeping takes from the side exactly what the matches carry, and the
/// matches carry exactly what was filled of the order.
proof fn lemma_sweep_best_qty(side: Seq<(u64, Seq<Order>)>, qty: nat, limit: u64, buying: bool)
    requires
        levels_positive(side),
    ensures
        ({
            let r = sweep_best(side, qty, limit, buying);
            &&& fills_qty(r.2) + r.1 == qty
            &&& side_qty(r.0) + fills_qty(r.2) == side_qty(side)
        }),
    decreases qty, count_orders(side),
{
    if qty > 0 {
        if let Some(idx) = best_reporting(side, limit, buying) {
            if 0 <= idx < side.len() && side[idx].1.len() > 0 {
                let (after, out, m) = match_oldest(side[idx].1, qty);
                lemma_match_oldest(side[idx].1, qty);
                let s2 = side.update(idx, (side[idx].0, after));
                lemma_side_update(side, idx, (side[idx].0, after));
                assert forall|k: int| 0 <= k < s2.len() implies all_positive(#[trigger] s2[k].1) by {
                    if k != idx {
                        assert(s2[k] == side[k]);
                    }
                }
                lemma_sweep_best_qty(s2, (qty - m) as nat, limit, buying);
                let r = sweep_best(s2, (qty - m) as nat, limit, buying);
                let all = seq![(out.id, out.price, m as u64)] + r.2;
                assert(all.drop_first() =~= r.2);
                assert(fills_qty(all) == m + fills_qty(r.2));
            }
        }
    }
}

/// Quantity is kept when an order arrives: its trades carry exactly what
/// leaves the opposite side, no more than the order asked for, and what does
/// not trade rests on the order's own side.
pub proof fn lemma_trades_keep_quantity(
    bids: Seq<(u64, Seq<Order>)>,
    asks: Seq<(u64, Seq<Order>)>,
    order: Order,
    trades: Seq<Trade>,
    id0: u64,
    pair: TradingPair,
)
    requires
        sorted_prices(bids),
        sorted_prices(asks),
        levels_positive(bids),
        levels_positive(asks),
        trades.len() == matches_of(bids, asks, order).len(),
        forall|k: int| 0 <= k < trades.len() ==> trade_of(
            #[trigger] trades[k],
            order,
            matches_of(bids, asks, order)[k],
            wrapped_sum(id0 + k),
            pair,
        ),
    ensures
        ({
            let (b, a) = book_after(bids, asks, order);
            let t = trades_qty(trades);
            &&& t <= order.quantity
            &&& order.order_type == OrderType::Buy ==> side_qty(a) + t == side_qty(asks)
                && side_qty(b) + t == side_qty(bids) + order.quantity
            &&& order.order_type == OrderType::Sell ==> side_qty(b) + t == side_qty(bids)
                && side_qty(a) + t == side_qty(asks) + order.quantity
        }),
{
    let ms = matches_of(bids, asks, order);
    assert forall|k: int| 0 <= k < trades.len() implies #[trigger] trades[k].quantity == ms[k].2 by {
        assert(trade_of(trades[k], order, ms[k], wrapped_sum(id0 + k), pair));
    }
    lemma_trades_qty(trades, ms);
    match order.order_type {
        OrderType::Buy => {
            lemma_sweep_best_qty(asks, order.quantity as nat, order.price, true);
            let r = sweep_best(asks, order.quantity as nat, order.price, true);
            if r.1 > 0 {
                lemma_rest_order_qty(bids, order.price, Order { quantity: r.1 as u64, ..order });
            }
        },
        OrderType::Sell => {
            lemma_sweep_best_qty(bids, order.quantity as nat, order.price, false);
            let r = sweep_best(bids, order.quantity as nat, order.price, false);
            if r.1 > 0 {
                lemma_rest_order_qty(asks, order.price, Order { quantity: r.1 as u64, ..order });
            }
        },
    }
}

/// The orders at one price, oldest first, with a counter of them and a sum of
/// their quantities beside the queue; both counters wrap around.
pub struct AtomicPriceLevel {
    price: u64,
    total_quantity: u64,
    order_count: usize,
    head: SegQueue<Order>,
}

impl View for AtomicPriceLevel {
    type V = (u64, Seq<Order>);

    /// The level's price and its queued orders, oldest first.
    closed spec fn view(&self) -> (u64, Seq<Order>) {
        (self.price, queued_engine_orders(self.head))
    }
}

impl AtomicPriceLevel {
    /// The counters agree with the queue, and every queued order has
    /// something left.
    pub closed spec fn wf(&self) -> bool {
        &&& self.order_count == wrapped_count(self@.1.len() as int)
        &&& self.total_quantity == wrapped_sum(sum_qty(self@.1) as int)
        &&& all_positive(self@.1)
    }

    pub proof fn lemma_wf(&self)
        requires
            self.wf(),
        ensures
            all_positive(self@.1),
    {
    }

    /// An empty level at `price`.
    pub fn new(price: u64) -> (r: Self)
        ensures
            r.wf(),
            r@ == (price, Seq::<Order>::empty()),
    {
        let r = AtomicPriceLevel { price, total_quantity: 0, order_count: 0, head: new_queue() };
        proof {
            vstd::arithmetic::div_mod::lemma_small_mod(0, 0x1_0000_0000_0000_0000);
            vstd::arithmetic::div_mod::lemma_small_mod(0, (usize::MAX + 1) as nat);
        }
        r
    }

    /// Queues an order behind the others.
    pub fn add_order(&mut self, order: Order)
        requires
            old(self).wf(),
            order.quantity > 0,
        ensures
            final(self).wf(),
            final(self)@ == (old(self)@.0, old(self)@.1.push(order)),
    {
        proof {
            lemma_wrapped_sum_add(self.total_quantity, order.quantity, sum_qty(self@.1) as int);
            lemma_wrapped_count_inc(self.order_count, self@.1.len() as int);
            lemma_sum_qty_push(self@.1, order);
        }
        self.total_quantity = self.total_quantity.wrapping_add(order.quantity);
        self.order_count = self.order_count.wrapping_add(1);
        push_order(&mut self.head, order);
    }

    /// Matches once against the oldest order, as [`match_oldest`] says; `None`
    /// when the level reports no orders.
    pub fn try_match(&mut self, quantity_needed: u64) -> (r: Option<(Order, u64)>)
        requires
            old(self).wf(),
        ensures
            final(self).wf(),
            final(self)@.0 == old(self)@.0,
            !reports_orders(old(self)@) ==> r is None && final(self)@ == old(self)@,
            reports_orders(old(self)@) ==> {
                let (after, out, m) = match_oldest(old(self)@.1, quantity_needed as nat);
                &&& old(self)@.1.len() > 0
                &&& r == Some((out, m as u64))
                &&& final(self)@.1 == after
            },
    {
        if self.order_count == 0 {
            return None;
        }
        proof {
            lemma_wrapped_count_dec(self.order_count, self@.1.len() as int);
        }
        let ghost before = self@.1;
        match pop_order(&mut self.head) {
            Some(mut order) => {
                let match_quantity = if order.quantity < quantity_needed {
                    order.quantity
                } else {
                    quantity_needed
                };
                proof {
                    lemma_sum_qty_first(before);
                    lemma_wrapped_sum_sub(self.total_quantity, match_quantity, sum_qty(before) as int);
                }
                self.total_quantity = self.total_quantity.wrapping_sub(match_quantity);
                order.quantity = order.quantity - match_quantity;
                if order.quantity > 0 {
                    proof {
                        lemma_wrapped_count_inc((self.order_count - 1) as usize, before.len() - 1);
                        lemma_sum_qty_push(before.drop_first(), order);
                    }
                    push_order(&mut self.head, order.clone());
                } else {
                    self.order_count = self.order_count - 1;
                }
                Some((order, match_quantity))
            },
            None => None,
        }
    }

    /// The sum of the queued quantities, as the wrapping counter holds it.
    pub fn get_total_quantity(&self) -> (r: u64)
        requires
            self.wf(),
        ensures
            r == wrapped_sum(sum_qty(self@.1) as int),
    {
        self.total_quantity
    }

    /// The number of queued orders, as the wrapping counter holds it.
    pub fn get_order_count(&self) -> (r: usize)
        requires
            self.wf(),
        ensures
            r == wrapped_count(self@.1.len() as int),
    {
        self.order_count
    }
}

/// A side as the contracts see it: each level's price and queued orders.
pub open spec fn levels_view(levels: Seq<AtomicPriceLevel>) -> Seq<(u64, Seq<Order>)> {
    levels.map_values(|l: AtomicPriceLevel| l@)
}

/// Every level is consistent and prices increase from level to level.
pub open spec fn levels_ok(levels: Seq<AtomicPriceLevel>) -> bool {
    &&& forall|i: int| 0 <= i < levels.len() ==> (#[trigger] levels[i]).wf()
    &&& sorted_prices(levels_view(levels))
}

/// Position of the best level of `levels` within `limit` whose counter
/// reports orders, as [`best_reporting`] says.
fn find_best_reporting(levels: &Vec<AtomicPriceLevel>, limit: u64, buying: bool) -> (r: Option<usize>)
    requires
        levels_ok(levels@),
    ensures
        r matches Some(i) ==> best_reporting(levels_view(levels@), limit, buying) == Some(i as int)
            && i < levels@.len() && reports_orders(levels_view(levels@)[i as int]),
        r is None ==> best_reporting(levels_view(levels@), limit, buying) is None,
{
    let ghost side = levels_view(levels@);
    if buying {
        let mut i: usize = 0;
        while i < levels.len() && levels[i].price <= limit
            invariant
                buying,
                i <= levels.len(),
                side == levels_view(levels@),
                levels_ok(levels@),
                forall|j: int| 0 <= j < i ==> !reports_orders(#[trigger] side[j]),
            decreases levels.len() - i,
        {
            assert(side[i as int] == levels@[i as int]@);
            if levels[i].get_order_count() > 0 {
                proof {
                    lemma_first_reporting_found(side, limit, i as int);
                }
                return Some(i);
            }
            i = i + 1;
        }
        proof {
            if i < levels.len() {
                assert(side[i as int] == levels@[i as int]@);
            }
            lemma_first_reporting_none(side, limit, i as int);
        }
        None
    } else {
        let mut i: usize = levels.len();
        while i > 0 && levels[i - 1].price >= limit
            invariant
                !buying,
                i <= levels.len(),
                side == levels_view(levels@),
                levels_ok(levels@),
                forall|j: int| i <= j < side.len() ==> !reports_orders(#[trigger] side[j]),
            decreases i,
        {
            assert(side[i - 1] == levels@[i - 1]@);
            if levels[i - 1].get_order_count() > 0 {
                proof {
                    lemma_last_reporting_found(side, limit, i - 1);
                }
                return Some(i - 1);
            }
            i = i - 1;
        }
        proof {
            if i > 0 {
                assert(side[i - 1] == levels@[i - 1]@);
            }
            lemma_last_reporting_none(side, limit, i as int);
        }
        None
    }
}

/// Rests `order` at `price`: queued at the level of that price, which is
/// created, in price order, if the side has none.
fn rest_on(levels: &mut Vec<AtomicPriceLevel>, price: u64, order: Order)
    requires
        levels_ok(old(levels)@),
        order.quantity > 0,
    ensures
        levels_ok(final(levels)@),
        levels_view(final(levels)@) == rest_order(levels_view(old(levels)@), price, order),
{
    let ghost before = levels_view(levels@);
    let mut i: usize = 0;
    while i < levels.len() && levels[i].price < price
        invariant
            i <= levels.len(),
            levels@ == old(levels)@,
            forall|j: int| 0 <= j < i ==> levels@[j]@.0 < price,
        decreases levels.len() - i,
    {
        i = i + 1;
    }
    proof {
        lemma_lower_bound(before, price, i as int);
    }
    if i < levels.len() && levels[i].price == price {
        levels[i].add_order(order);
        assert(levels_view(levels@) =~= before.update(i as int, (price, before[i as int].1.push(order))));
    } else {
        let mut level = AtomicPriceLevel::new(price);
        level.add_order(order);
        levels.insert(i, level);
        assert(Seq::<Order>::empty().push(order) =~= seq![order]);
        assert(levels_view(levels@) =~= before.insert(i as int, (price, seq![order])));
        assert forall|a: int, b: int| 0 <= a < b < levels@.len() implies levels_view(levels@)[a].0
            < levels_view(levels@)[b].0 by {
            if a < i && b > i {
                assert(levels@[b] == old(levels)@[b - 1]);
            } else if a == i && b > i {
                assert(levels@[b] == old(levels)@[b - 1]);
            } else if a > i {
                assert(levels@[a] == old(levels)@[a - 1]);
                assert(levels@[b] == old(levels)@[b - 1]);
            }
        }
    }
}

/// The quantity resting at each level, as the levels' wrapping totals hold
/// it, lowest price first.
pub open spec fn reported_entries(side: Seq<(u64, Seq<Order>)>) -> Seq<OrderBookEntry> {
    side.map_values(|l: (u64, Seq<Order>)| OrderBookEntry { price: l.0, quantity: wrapped_sum(sum_qty(l.1) as int) as u128 })
}

/// A book for one trading pair, numbering its trades with a counter that
/// wraps around.
pub struct LockFreeOrderBook {
    trading_pair: TradingPair,
    /// Levels in increasing price order.
    buy_levels: Vec<AtomicPriceLevel>,
    /// Levels in increasing price order.
    sell_levels: Vec<AtomicPriceLevel>,
    next_trade_id: u64,
}

impl LockFreeOrderBook {
    /// The bids, level by level in increasing price order.
    pub closed spec fn bids(&self) -> Seq<(u64, Seq<Order>)> {
        levels_view(self.buy_levels@)
    }

    /// The asks, level by level in increasing price order.
    pub closed spec fn asks(&self) -> Seq<(u64, Seq<Order>)> {
        levels_view(self.sell_levels@)
    }

    /// The pair the book was made for.
    pub closed spec fn pair(&self) -> TradingPair {
        self.trading_pair
    }

    /// The number the next trade will get.
    pub closed spec fn next_id(&self) -> u64 {
        self.next_trade_id
    }

    /// The book is consistent: sorted sides of consistent levels, and every
    /// queued order at the level of the price it was placed at.
    pub closed spec fn wf(&self) -> bool {
        &&& levels_ok(self.buy_levels@)
        &&& levels_ok(self.sell_levels@)
        &&& prices_match(self.bids())
        &&& prices_match(self.asks())
    }

    /// What a consistent book gives [`lemma_trades_keep_quantity`]: sorted
    /// sides whose queued orders all have something left and sit at the
    /// level of their own price.
    pub proof fn lemma_wf(&self)
        requires
            self.wf(),
        ensures
            sorted_prices(self.bids()),
            sorted_prices(self.asks()),
            levels_positive(self.bids()),
            levels_positive(self.asks()),
            prices_match(self.bids()),
            prices_match(self.asks()),
    {
        assert forall|i: int| 0 <= i < self.bids().len() implies all_positive(#[trigger] self.bids()[i].1) by {
            assert(self.buy_levels@[i].wf());
            assert(self.bids()[i] == self.buy_levels@[i]@);
        }
        assert forall|i: int| 0 <= i < self.asks().len() implies all_positive(#[trigger] self.asks()[i].1) by {
            assert(self.sell_levels@[i].wf());
            assert(self.asks()[i] == self.sell_levels@[i]@);
        }
    }

    /// An empty book for `trading_pair`; its first trade is numbered 1.
    pub fn new(trading_pair: TradingPair) -> (r: Self)
        ensures
            r.wf(),
            r.pair() == trading_pair,
            r.bids() == Seq::<(u64, Seq<Order>)>::empty(),
            r.asks() == Seq::<(u64, Seq<Order>)>::empty(),
            r.next_id() == 1,
    {
        let r = LockFreeOrderBook {
            trading_pair,
            buy_levels: Vec::new(),
            sell_levels: Vec::new(),
            next_trade_id: 1,
        };
        assert(r.bids() =~= Seq::<(u64, Seq<Order>)>::empty());
        assert(r.asks() =~= Seq::<(u64, Seq<Order>)>::empty());
        r
    }

    /// Sweeps the levels `levels` of the side opposite to `incoming_order`, as
    /// [`sweep_best`] says, recording a trade for each match.
    fn sweep(
        levels: &mut Vec<AtomicPriceLevel>,
        incoming_order: &mut Order,
        buying: bool,
        pair: &TradingPair,
        next_trade_id: &mut u64,
        trades: &mut Vec<Trade>,
    )
        requires
            levels_ok(old(levels)@),
            prices_match(levels_view(old(levels)@)),
            old(trades)@.len() == 0,
            buying == (old(incoming_order).order_type == OrderType::Buy),
        ensures
            levels_ok(final(levels)@),
            prices_match(levels_view(final(levels)@)),
            ({
                let r = sweep_best(levels_view(old(levels)@), old(incoming_order).quantity as nat, old(incoming_order).price, buying);
                &&& levels_view(final(levels)@) == r.0
                &&& final(incoming_order).quantity == r.1
                &&& final(trades)@.len() == r.2.len()
                &&& forall|k: int| 0 <= k < r.2.len() ==> trade_of(
                    #[trigger] final(trades)@[k],
                    *old(incoming_order),
                    r.2[k],
                    wrapped_sum(*old(next_trade_id) + k),
                    *pair,
                )
                &&& *final(next_trade_id) == wrapped_sum(*old(next_trade_id) + r.2.len())
            }),
            *final(incoming_order) == (Order { quantity: final(incoming_order).quantity, ..*old(incoming_order) }),
    {
        let ghost v0 = levels_view(levels@);
        let ghost q0 = incoming_order.quantity;
        let ghost id0 = *next_trade_id;
        let ghost mut made: Seq<(u64, u64, u64)> = Seq::empty();
        let price = incoming_order.price;
        let mut done = false;
        proof {
            vstd::arithmetic::div_mod::lemma_small_mod(id0 as nat, u64_range() as nat);
            assert(made + sweep_best(v0, q0 as nat, price, buying).2 =~= sweep_best(v0, q0 as nat, price, buying).2);
        }
        while incoming_order.quantity > 0 && !done
            invariant
                levels_ok(levels@),
                prices_match(levels_view(levels@)),
                buying == (old(incoming_order).order_type == OrderType::Buy),
                incoming_order.price == price,
                *incoming_order == (Order { quantity: incoming_order.quantity, ..*old(incoming_order) }),
                sweep_best(v0, q0 as nat, price, buying) == ({
                    let r = sweep_best(levels_view(levels@), incoming_order.quantity as nat, price, buying);
                    (r.0, r.1, made + r.2)
                }),
                done ==> sweep_best(levels_view(levels@), incoming_order.quantity as nat, price, buying)
                    == (levels_view(levels@), incoming_order.quantity as nat, Seq::<(u64, u64, u64)>::empty()),
                trades@.len() == made.len(),
                forall|k: int| 0 <= k < made.len() ==> trade_of(
                    #[trigger] trades@[k],
                    *old(incoming_order),
                    made[k],
                    wrapped_sum(id0 + k),
                    *pair,
                ),
                *next_trade_id == wrapped_sum(id0 + made.len()),
            decreases incoming_order.quantity * 2 + if done { 0int } else { 1int },
        {
            let ghost cur = levels_view(levels@);
            match find_best_reporting(levels, price, buying) {
                None => {
                    done = true;
                },
                Some(idx) => {
                    assert(cur[idx as int] == levels@[idx as int]@);
                    let ghost lv = levels@;
                    let try_result = levels[idx].try_match(incoming_order.quantity);
                    proof {
                        assert forall|i: int| 0 <= i < levels@.len() implies (#[trigger] levels@[i]).wf() by {
                            if i != idx {
                                assert(levels@[i] == lv[i]);
                            }
                        }
                    }
                    match try_result {
                        Some((resting_order, match_quantity)) => {
                            proof {
                                levels@[idx as int].lemma_wf();
                            }
                            incoming_order.quantity = incoming_order.quantity - match_quantity;
                            let id = *next_trade_id;
                            proof {
                                lemma_wrapped_sum_add(*next_trade_id, 1, id0 + made.len());
                            }
                            *next_trade_id = next_trade_id.wrapping_add(1);
                            let trade = Trade {
                                id,
                                trading_pair: pair.clone(),
                                price: resting_order.price,
                                quantity: match_quantity,
                                buy_order_id: if buying { incoming_order.id } else { resting_order.id },
                                sell_order_id: if buying { resting_order.id } else { incoming_order.id },
                                timestamp: now(),
                            };
                            let ghost tb = trades@;
                            trades.push(trade);
                            proof {
                                let q = (incoming_order.quantity + match_quantity) as nat;
                                let (after, out, m) = match_oldest(cur[idx as int].1, q);
                                assert(levels_view(levels@) =~= cur.update(idx as int, (cur[idx as int].0, after)));
                                lemma_match_oldest_priced(cur[idx as int].1, q, cur[idx as int].0);
                                let now_v = levels_view(levels@);
                                assert forall|k: int| 0 <= k < now_v.len() implies all_priced(#[trigger] now_v[k].1, now_v[k].0) by {
                                    if k != idx {
                                        assert(now_v[k] == cur[k]);
                                    }
                                }
                                let r = sweep_best(levels_view(levels@), incoming_order.quantity as nat, price, buying);
                                assert(best_reporting(cur, price, buying) == Some(idx as int));
                                assert(cur[idx as int].1.len() > 0);
                                assert(q > 0);
                                assert(sweep_best(cur, q, price, buying) == (r.0, r.1, seq![(out.id, out.price, m as u64)] + r.2));
                                assert(made.push((out.id, out.price, m as u64)) + r.2 =~= made + (seq![(out.id, out.price, m as u64)] + r.2));
                                assert forall|k: int| 0 <= k < made.len() + 1 implies trade_of(
                                    #[trigger] trades@[k],
                                    *old(incoming_order),
                                    made.push((out.id, out.price, m as u64))[k],
                                    wrapped_sum(id0 + k),
                                    *pair,
                                ) by {
                                    if k < made.len() {
                                        assert(trades@[k] == tb[k]);
                                    }
                                }
                                assert forall|a: int, b: int| 0 <= a < b < levels@.len() implies levels_view(levels@)[a].0
                                    < levels_view(levels@)[b].0 by {
                                    assert(levels_view(levels@)[a].0 == cur[a].0);
                                    assert(levels_view(levels@)[b].0 == cur[b].0);
                                }
                                made = made.push((out.id, out.price, m as u64));
                            }
                        },
                        None => {
                            assert(levels_view(levels@) =~= cur);
                            done = true;
                        },
                    }
                },
            }
        }
        proof {
            assert(made + Seq::<(u64, u64, u64)>::empty() =~= made);
        }
    }

    fn process_order(&mut self, incoming_order: Order) -> (trades: Vec<Trade>)
        requires
            old(self).wf(),
        ensures
            final(self).wf(),
            final(self).pair() == old(self).pair(),
            (final(self).bids(), final(self).asks()) == book_after(old(self).bids(), old(self).asks(), incoming_order),
            trades@.len() == matches_of(old(self).bids(), old(self).asks(), incoming_order).len(),
            forall|k: int| 0 <= k < trades@.len() ==> trade_of(
                #[trigger] trades@[k],
                incoming_order,
                matches_of(old(self).bids(), old(self).asks(), incoming_order)[k],
                wrapped_sum(old(self).next_id() + k),
                old(self).pair(),
            ),
            final(self).next_id() == wrapped_sum(old(self).next_id() + trades@.len()),
    {
        let mut trades = Vec::new();
        let mut incoming_order = incoming_order;
        match incoming_order.order_type {
            OrderType::Buy => {
                Self::sweep(&mut self.sell_levels, &mut incoming_order, true, &self.trading_pair, &mut self.next_trade_id, &mut trades);
                if incoming_order.quantity > 0 {
                    let price = incoming_order.price;
                    proof {
                        lemma_rest_order_priced(self.bids(), price, incoming_order);
                    }
                    rest_on(&mut self.buy_levels, price, incoming_order);
                }
            },
            OrderType::Sell => {
                Self::sweep(&mut self.buy_levels, &mut incoming_order, false, &self.trading_pair, &mut self.next_trade_id, &mut trades);
                if incoming_order.quantity > 0 {
                    let price = incoming_order.price;
                    proof {
                        lemma_rest_order_priced(self.asks(), price, incoming_order);
                    }
                    rest_on(&mut self.sell_levels, price, incoming_order);
                }
            },
        }
        trades
    }

    /// Adds an order as [`book_after`] says. Returns the trades made, one per
    /// match, numbered on from [`Self::next_id`], to be published.
    pub fn add_order(&mut self, order: Order) -> (trades: Vec<Trade>)
        requires
            old(self).wf(),
        ensures
            final(self).wf(),
            final(self).pair() == old(self).pair(),
            (final(self).bids(), final(self).asks()) == book_after(old(self).bids(), old(self).asks(), order),
            trades@.len() == matches_of(old(self).bids(), old(self).asks(), order).len(),
            forall|k: int| 0 <= k < trades@.len() ==> trade_of(
                #[trigger] trades@[k],
                order,
                matches_of(old(self).bids(), old(self).asks(), order)[k],
                wrapped_sum(old(self).next_id() + k),
                old(self).pair(),
            ),
            final(self).next_id() == wrapped_sum(old(self).next_id() + trades@.len()),
    {
        self.process_order(order)
    }

    /// Matching happens as orders arrive: there is nothing to match here.
    pub fn match_orders(&self) -> (trades: Vec<Trade>)
        ensures
            trades@.len() == 0,
    {
        Vec::new()
    }

    /// The mid price of the highest bid level and the lowest ask level,
    /// whether or not they report orders, or
    /// [`crate::engine::order_book::DEFAULT_PRICE`] when there is no level.
    pub fn get_current_price(&self) -> (r: Option<MidPrice>)
        ensures
            r == Some(price_or_default(highest_price(self.bids()), lowest_price(self.asks()))),
    {
        let best_bid = if self.buy_levels.len() > 0 {
            Some(self.buy_levels[self.buy_levels.len() - 1].price)
        } else {
            None
        };
        let best_ask = if self.sell_levels.len() > 0 {
            Some(self.sell_levels[0].price)
        } else {
            None
        };
        Some(price_or_default_of(best_bid, best_ask))
    }

    /// The levels with their wrapping totals, both sides from the lowest
    /// price up.
    pub fn get_order_book(&self) -> (r: (Vec<OrderBookEntry>, Vec<OrderBookEntry>))
        requires
            self.wf(),
        ensures
            r.0@ == reported_entries(self.bids()),
            r.1@ == reported_entries(self.asks()),
    {
        (entries_of(&self.buy_levels), entries_of(&self.sell_levels))
    }

    /// This book keeps no trades.
    pub fn get_trade_history(&self) -> (trades: Vec<Trade>)
        ensures
            trades@.len() == 0,
    {
        Vec::new()
    }

    /// What the bid levels' counters and the ask levels' counters report,
    /// each summed wide enough never to overflow.
    pub fn order_counts_wide(&self) -> (n: (u128, u128))
        requires
            self.wf(),
        ensures
            n.0 == reported_total(self.bids()),
            n.1 == reported_total(self.asks()),
    {
        (count_reported_wide(&self.buy_levels), count_reported_wide(&self.sell_levels))
    }

    /// The sum of what the levels' counters report.
    pub fn get_active_orders_count(&self) -> (n: usize)
        requires
            self.wf(),
            reported_total(self.bids()) + reported_total(self.asks()) <= usize::MAX,
        ensures
            n == reported_total(self.bids()) + reported_total(self.asks()),
    {
        let buy_count = count_reported(&self.buy_levels);
        let sell_count = count_reported(&self.sell_levels);
        buy_count + sell_count
    }
}

fn entries_of(levels: &Vec<AtomicPriceLevel>) -> (r: Vec<OrderBookEntry>)
    requires
        levels_ok(levels@),
    ensures
        r@ == reported_entries(levels_view(levels@)),
{
    let ghost side = levels_view(levels@);
    let mut r: Vec<OrderBookEntry> = Vec::new();
    let mut i: usize = 0;
    while i < levels.len()
        invariant
            i <= levels.len(),
            side == levels_view(levels@),
            levels_ok(levels@),
            r@ == reported_entries(side).take(i as int),
        decreases levels.len() - i,
    {
        assert(side[i as int] == levels@[i as int]@);
        r.push(OrderBookEntry { price: levels[i].price, quantity: levels[i].get_total_quantity() as u128 });
        assert(reported_entries(side).take(i + 1) =~= reported_entries(side).take(i as int).push(reported_entries(side)[i as int]));
        i = i + 1;
    }
    assert(reported_entries(side).take(i as int) =~= reported_entries(side));
    r
}

/// The sum of what the levels' counters report, counted wide enough never to
/// overflow.
fn count_reported_wide(levels: &Vec<AtomicPriceLevel>) -> (n: u128)
    requires
        levels_ok(levels@),
    ensures
        n == reported_total(levels_view(levels@)),
{
    let ghost side = levels_view(levels@);
    let len = levels.len();
    proof {
        assert(side.len() == len);
        lemma_reported_total_bound(side);
        assert(side.len() * usize::MAX <= usize::MAX * usize::MAX) by (nonlinear_arith)
            requires side.len() <= usize::MAX;
        assert(usize::MAX * usize::MAX <= 0xffff_ffff_ffff_ffff * 0xffff_ffff_ffff_ffff) by (nonlinear_arith)
            requires usize::MAX <= 0xffff_ffff_ffff_ffff;
    }
    let mut n: u128 = 0;
    let mut i: usize = 0;
    while i < levels.len()
        invariant
            i <= levels.len(),
            side == levels_view(levels@),
            levels_ok(levels@),
            reported_total(side) <= u128::MAX,
            n == reported_total(side.take(i as int)),
        decreases levels.len() - i,
    {
        proof {
            lemma_reported_total_take(side, i as int);
        }
        assert(side[i as int] == levels@[i as int]@);
        n = n + levels[i].get_order_count() as u128;
        i = i + 1;
    }
    assert(side.take(i as int) =~= side);
    n
}

fn count_reported(levels: &Vec<AtomicPriceLevel>) -> (n: usize)
    requires
        levels_ok(levels@),
        reported_total(levels_view(levels@)) <= usize::MAX,
    ensures
        n == reported_total(levels_view(levels@)),
{
    let ghost side = levels_view(levels@);
    let mut n: usize = 0;
    let mut i: usize = 0;
    while i < levels.len()
        invariant
            i <= levels.len(),
            side == levels_view(levels@),
            levels_ok(levels@),
            reported_total(side) <= usize::MAX,
            n == reported_total(side.take(i as int)),
        decreases levels.len() - i,
    {
        proof {
            lemma_reported_total_take(side, i as int);
        }
        assert(side[i as int] == levels@[i as int]@);
        n = n + levels[i].get_order_count();
        i = i + 1;
    }
    assert(side.take(i as int) =~= side);
    n
}

} // verus!
