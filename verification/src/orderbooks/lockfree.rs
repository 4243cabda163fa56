//! An order book whose levels are queues with counters beside them. Levels
//! are created on first use and never removed; a level that reports no
//! orders is passed over. An order partly filled goes back behind the others
//! at its level.
//!
//! The levels sit in a `Vec` kept sorted by price, not in a concurrent skip
//! map: a skip map hands out its values only behind shared references, while
//! a level here changes its counters and its queue in place, which needs a
//! `&mut` to it.

use vstd::prelude::*;
use crossbeam_queue::SegQueue;
use crate::level::{all_positive, all_priced, lemma_sum_qty_first, lemma_sum_qty_push, sum_qty, Quantified};
use crate::models::{mid_price, mid_price_of, MidPrice, Order, OrderType, TradingPair};
use crate::queue::{
    lemma_wrapped_count_dec, lemma_wrapped_count_inc, lemma_wrapped_sum_add,
    lemma_wrapped_sum_sub, wrapped_count, wrapped_sum,
};
use crate::side::{
    count_orders, lemma_lower_bound, lemma_rest_order_priced, lemma_rest_order_qty,
    lemma_side_update, levels_positive, prices_match, rest_order, side_qty, sorted_prices,
};

verus! {

/// What a queue of orders holds, oldest first.
pub uninterp spec fn queued_orders(q: SegQueue<Order>) -> Seq<Order>;

/// `SegQueue::new`: an empty queue.
#[verifier::external_body]
fn new_queue() -> (q: SegQueue<Order>)
    ensures
        queued_orders(q) == Seq::<Order>::empty(),
{
    SegQueue::new()
}

/// `SegQueue::push`: the value joins the queue at its tail.
#[verifier::external_body]
fn push_order(q: &mut SegQueue<Order>, order: Order)
    ensures
        queued_orders(*final(q)) == queued_orders(*old(q)).push(order),
{
    q.push(order)
}

/// `SegQueue::pop`: the value at the head leaves the queue; `None` when the
/// queue is empty.
#[verifier::external_body]
fn pop_order(q: &mut SegQueue<Order>) -> (r: Option<Order>)
    ensures
        queued_orders(*old(q)).len() == 0 ==> r is None && queued_orders(*final(q)) == queued_orders(*old(q)),
        queued_orders(*old(q)).len() > 0 ==> r == Some(queued_orders(*old(q))[0])
            && queued_orders(*final(q)) == queued_orders(*old(q)).drop_first(),
{
    q.pop()
}

/// One match against the oldest order of a level: it gives up what it has,
/// up to `needed`, and if something is left it goes back behind the others.
/// Gives the orders after, the order as it came out, and the quantity
/// matched.
pub open spec fn match_oldest<T: Quantified>(orders: Seq<T>, needed: nat) -> (Seq<T>, T, nat) {
    let o = orders[0];
    let m = if o.qty() < needed { o.qty() as nat } else { needed };
    let out = o.with_qty((o.qty() - m) as u64);
    (if o.qty() > m { orders.drop_first().push(out) } else { orders.drop_first() }, out, m)
}

/// The level reports orders: its counter, which wraps around, is not zero.
pub open spec fn reports_orders<T>(l: (u64, Seq<T>)) -> bool {
    wrapped_count(l.1.len() as int) > 0
}

/// Position of the first level, from the lowest price, that reports orders,
/// among the levels priced at most `limit`.
pub open spec fn first_reporting_up_to<T>(side: Seq<(u64, Seq<T>)>, limit: u64) -> Option<int>
    decreases side.len(),
{
    if side.len() == 0 || side[0].0 > limit {
        None
    } else if reports_orders(side[0]) {
        Some(0)
    } else {
        match first_reporting_up_to(side.drop_first(), limit) {
            Some(k) => Some(k + 1),
            None => None,
        }
    }
}

/// Position of the first level, from the highest price, that reports orders,
/// among the levels priced at least `limit`.
pub open spec fn last_reporting_down_to<T>(side: Seq<(u64, Seq<T>)>, limit: u64) -> Option<int>
    decreases side.len(),
{
    if side.len() == 0 || side.last().0 < limit {
        None
    } else if reports_orders(side.last()) {
        Some(side.len() - 1)
    } else {
        last_reporting_down_to(side.drop_last(), limit)
    }
}

/// A buy of `qty` limited to `limit` sweeps the sell side: again and again it
/// matches once against the oldest order of the lowest-priced level within
/// the limit that reports orders, until it is filled or no such level is
/// left. Gives the side after and the quantity left unfilled.
pub open spec fn sweep_up_to(side: Seq<(u64, Seq<Order>)>, qty: nat, limit: u64) -> (Seq<(u64, Seq<Order>)>, nat)
    decreases qty, count_orders(side),
{
    if qty == 0 {
        (side, qty)
    } else {
        match first_reporting_up_to(side, limit) {
            Some(i) => {
                if 0 <= i < side.len() && side[i].1.len() > 0 {
                    let (after, _, m) = match_oldest(side[i].1, qty);
                    proof {
                        lemma_side_update(side, i, (side[i].0, after));
                    }
                    sweep_up_to(side.update(i, (side[i].0, after)), (qty - m) as nat, limit)
                } else {
                    (side, qty)
                }
            },
            None => (side, qty),
        }
    }
}

/// A sell of `qty` limited to `limit` sweeps the buy side as a buy sweeps the
/// sell side, from the highest-priced level within the limit down.
pub open spec fn sweep_down_to(side: Seq<(u64, Seq<Order>)>, qty: nat, limit: u64) -> (Seq<(u64, Seq<Order>)>, nat)
    decreases qty, count_orders(side),
{
    if qty == 0 {
        (side, qty)
    } else {
        match last_reporting_down_to(side, limit) {
            Some(i) => {
                if 0 <= i < side.len() && side[i].1.len() > 0 {
                    let (after, _, m) = match_oldest(side[i].1, qty);
                    proof {
                        lemma_side_update(side, i, (side[i].0, after));
                    }
                    sweep_down_to(side.update(i, (side[i].0, after)), (qty - m) as nat, limit)
                } else {
                    (side, qty)
                }
            },
            None => (side, qty),
        }
    }
}

/// The book after `order` arrives: a buy sweeps the asks, a sell the bids,
/// and what is left of the order rests at its price on its own side.
pub open spec fn book_after(
    bids: Seq<(u64, Seq<Order>)>,
    asks: Seq<(u64, Seq<Order>)>,
    order: Order,
) -> (Seq<(u64, Seq<Order>)>, Seq<(u64, Seq<Order>)>) {
    match order.order_type {
        OrderType::Buy => {
            let (a, rem) = sweep_up_to(asks, order.quantity as nat, order.price);
            (
                if rem > 0 {
                    rest_order(bids, order.price, Order { quantity: rem as u64, ..order })
                } else {
                    bids
                },
                a,
            )
        },
        OrderType::Sell => {
            let (b, rem) = sweep_down_to(bids, order.quantity as nat, order.price);
            (
                b,
                if rem > 0 {
                    rest_order(asks, order.price, Order { quantity: rem as u64, ..order })
                } else {
                    asks
                },
            )
        },
    }
}

/// The price of the highest level that reports orders: the best bid.
pub open spec fn reported_best_bid<T>(side: Seq<(u64, Seq<T>)>) -> Option<u64>
    decreases side.len(),
{
    if side.len() == 0 {
        None
    } else if reports_orders(side.last()) {
        Some(side.last().0)
    } else {
        reported_best_bid(side.drop_last())
    }
}

/// The price of the lowest level that reports orders: the best ask.
pub open spec fn reported_best_ask<T>(side: Seq<(u64, Seq<T>)>) -> Option<u64>
    decreases side.len(),
{
    if side.len() == 0 {
        None
    } else if reports_orders(side[0]) {
        Some(side[0].0)
    } else {
        reported_best_ask(side.drop_first())
    }
}

/// The sum of what the levels' counters report.
pub open spec fn reported_total<T>(side: Seq<(u64, Seq<T>)>) -> nat
    decreases side.len(),
{
    if side.len() == 0 {
        0
    } else {
        reported_total(side.drop_last()) + wrapped_count(side.last().1.len() as int)
    }
}

/// The orders at one price, oldest first, with a counter of them and a sum of
/// their quantities beside the queue; both counters wrap around.
pub struct AtomicPriceLevel {
    price: u64,
    total_quantity: u64,
    order_count: usize,
    head: SegQueue<Order>,
}

impl View for AtomicPriceLevel {
    type V = (u64, Seq<Order>);

    /// The level's price and its queued orders, oldest first.
    closed spec fn view(&self) -> (u64, Seq<Order>) {
        (self.price, queued_orders(self.head))
    }
}

impl AtomicPriceLevel {
    /// The orders queued, oldest first.
    pub open spec fn orders(&self) -> Seq<Order> {
        self@.1
    }

    /// The counters agree with the queue, and every queued order has
    /// something left.
    pub closed spec fn wf(&self) -> bool {
        &&& self.order_count == wrapped_count(self.orders().len() as int)
        &&& self.total_quantity == wrapped_sum(sum_qty(self.orders()) as int)
        &&& all_positive(self.orders())
    }

    pub proof fn lemma_wf(&self)
        requires
            self.wf(),
        ensures
            all_positive(self.orders()),
    {
    }

    /// An empty level at `price`.
    pub fn new(price: u64) -> (r: Self)
        ensures
            r.wf(),
            r@.0 == price,
            r.orders() == Seq::<Order>::empty(),
    {
        let r = AtomicPriceLevel { price, total_quantity: 0, order_count: 0, head: new_queue() };
        proof {
            vstd::arithmetic::div_mod::lemma_small_mod(0, 0x1_0000_0000_0000_0000);
            vstd::arithmetic::div_mod::lemma_small_mod(0, (usize::MAX + 1) as nat);
        }
        r
    }

    /// Queues an order behind the others.
    pub fn add_order(&mut self, order: Order)
        requires
            old(self).wf(),
            order.quantity > 0,
        ensures
            final(self).wf(),
            final(self)@.0 == old(self)@.0,
            final(self).orders() == old(self).orders().push(order),
    {
        proof {
            lemma_wrapped_sum_add(self.total_quantity, order.quantity, sum_qty(self.orders()) as int);
            lemma_wrapped_count_inc(self.order_count, self.orders().len() as int);
            lemma_sum_qty_push(self.orders(), order);
        }
        self.total_quantity = self.total_quantity.wrapping_add(order.quantity);
        self.order_count = self.order_count.wrapping_add(1);
        push_order(&mut self.head, order);
    }

    /// Matches once against the oldest order, as [`match_oldest`] says; `None`
    /// when the level reports no orders.
    pub fn try_match(&mut self, quantity_needed: u64) -> (r: Option<(Order, u64)>)
        requires
            old(self).wf(),
        ensures
            final(self).wf(),
            final(self)@.0 == old(self)@.0,
            !reports_orders(old(self)@) ==> r is None && final(self).orders() == old(self).orders(),
            reports_orders(old(self)@) ==> {
                let (after, out, m) = match_oldest(old(self).orders(), quantity_needed as nat);
                &&& old(self).orders().len() > 0
                &&& r == Some((out, m as u64))
                &&& final(self).orders() == after
            },
    {
        if self.order_count == 0 {
            return None;
        }
        proof {
            lemma_wrapped_count_dec(self.order_count, self.orders().len() as int);
        }
        let ghost before = self.orders();
        match pop_order(&mut self.head) {
            Some(mut order) => {
                let match_quantity = if order.quantity < quantity_needed {
                    order.quantity
                } else {
                    quantity_needed
                };
                proof {
                    lemma_sum_qty_first(before);
                    lemma_wrapped_sum_sub(self.total_quantity, match_quantity, sum_qty(before) as int);
                }
                self.total_quantity = self.total_quantity.wrapping_sub(match_quantity);
                order.quantity = order.quantity - match_quantity;
                if order.quantity > 0 {
                    proof {
                        lemma_wrapped_count_inc((self.order_count - 1) as usize, before.len() - 1);
                        lemma_sum_qty_push(before.drop_first(), order);
                    }
                    push_order(&mut self.head, order.clone());
                    assert(sum_qty(before) - match_quantity == sum_qty(before.drop_first()) + order.quantity);
                } else {
                    self.order_count = self.order_count - 1;
                }
                Some((order, match_quantity))
            },
            None => None,
        }
    }

    /// The sum of the queued quantities, as the wrapping counter holds it.
    pub fn get_total_quantity(&self) -> (r: u64)
        requires
            self.wf(),
        ensures
            r == wrapped_sum(sum_qty(self.orders()) as int),
    {
        self.total_quantity
    }

    /// The number of queued orders, as the wrapping counter holds it.
    pub fn get_order_count(&self) -> (r: usize)
        requires
            self.wf(),
        ensures
            r == wrapped_count(self.orders().len() as int),
    {
        self.order_count
    }
}

pub proof fn lemma_first_reporting_found<T>(side: Seq<(u64, Seq<T>)>, limit: u64, i: int)
    requires
        sorted_prices(side),
        0 <= i < side.len(),
        side[i].0 <= limit,
        reports_orders(side[i]),
        forall|j: int| 0 <= j < i ==> !reports_orders(#[trigger] side[j]),
    ensures
        first_reporting_up_to(side, limit) == Some(i),
    decreases i,
{
    if i > 0 {
        assert(side[0].0 < side[i].0);
        assert(!reports_orders(side[0]));
        let rest = side.drop_first();
        assert forall|j: int| 0 <= j < i - 1 implies !reports_orders(#[trigger] rest[j]) by {
            assert(rest[j] == side[j + 1]);
        }
        lemma_first_reporting_found(rest, limit, i - 1);
    }
}

pub proof fn lemma_first_reporting_none<T>(side: Seq<(u64, Seq<T>)>, limit: u64, i: int)
    requires
        0 <= i <= side.len(),
        i < side.len() ==> side[i].0 > limit,
        forall|j: int| 0 <= j < i ==> !reports_orders(#[trigger] side[j]),
    ensures
        first_reporting_up_to(side, limit) is None,
    decreases i,
{
    if i > 0 && side[0].0 <= limit {
        assert(!reports_orders(side[0]));
        let rest = side.drop_first();
        assert forall|j: int| 0 <= j < i - 1 implies !reports_orders(#[trigger] rest[j]) by {
            assert(rest[j] == side[j + 1]);
        }
        lemma_first_reporting_none(rest, limit, i - 1);
    }
}

pub proof fn lemma_last_reporting_found<T>(side: Seq<(u64, Seq<T>)>, limit: u64, k: int)
    requires
        sorted_prices(side),
        0 <= k < side.len(),
        side[k].0 >= limit,
        reports_orders(side[k]),
        forall|j: int| k < j < side.len() ==> !reports_orders(#[trigger] side[j]),
    ensures
        last_reporting_down_to(side, limit) == Some(k),
    decreases side.len(),
{
    if k < side.len() - 1 {
        assert(side[k].0 < side.last().0);
        assert(!reports_orders(side[side.len() - 1]));
        let rest = side.drop_last();
        assert forall|j: int| k < j < rest.len() implies !reports_orders(#[trigger] rest[j]) by {
            assert(rest[j] == side[j]);
        }
        lemma_last_reporting_found(rest, limit, k);
    }
}

pub proof fn lemma_last_reporting_none<T>(side: Seq<(u64, Seq<T>)>, limit: u64, i: int)
    requires
        0 <= i <= side.len(),
        i > 0 ==> side[i - 1].0 < limit,
        forall|j: int| i <= j < side.len() ==> !reports_orders(#[trigger] side[j]),
    ensures
        last_reporting_down_to(side, limit) is None,
    decreases side.len(),
{
    if side.len() > i && side.last().0 >= limit {
        assert(!reports_orders(side[side.len() - 1]));
        let rest = side.drop_last();
        assert forall|j: int| i <= j < rest.len() implies !reports_orders(#[trigger] rest[j]) by {
            assert(rest[j] == side[j]);
        }
        lemma_last_reporting_none(rest, limit, i);
    }
}

/// One match keeps quantities positive and takes exactly the matched quantity
/// out of the level.
pub proof fn lemma_match_oldest<T: Quantified>(orders: Seq<T>, needed: nat)
    requires
        orders.len() > 0,
        all_positive(orders),
        needed > 0,
    ensures
        ({
            let (after, out, m) = match_oldest(orders, needed);
            &&& all_positive(after)
            &&& sum_qty(after) + m == sum_qty(orders)
            &&& 0 < m <= needed
            &&& after.len() <= orders.len()
        }),
{
    let (after, out, m) = match_oldest(orders, needed);
    lemma_sum_qty_first(orders);
    assert(orders[0].qty() > 0);
    orders[0].lemma_with_qty((orders[0].qty() - m) as u64);
    if orders[0].qty() > m {
        lemma_sum_qty_push(orders.drop_first(), out);
        assert forall|i: int| 0 <= i < after.len() implies #[trigger] after[i].qty() > 0 by {
            if i < after.len() - 1 {
                assert(after[i] == orders[i + 1]);
            }
        }
    } else {
        assert forall|i: int| 0 <= i < after.len() implies #[trigger] after[i].qty() > 0 by {
            assert(after[i] == orders[i + 1]);
        }
    }
}

/// Sweeping keeps every level at its price and every queued order with
/// something left, fills no more than asked, takes out of the side exactly
/// what it fills, and an order left with something finds no level within
/// its limit that reports orders.
pub proof fn lemma_sweep_up_to(side: Seq<(u64, Seq<Order>)>, qty: nat, limit: u64)
    requires
        levels_positive(side),
    ensures
        ({
            let (r, rem) = sweep_up_to(side, qty, limit);
            &&& levels_positive(r)
            &&& r.len() == side.len()
            &&& forall|i: int| 0 <= i < r.len() ==> #[trigger] r[i].0 == side[i].0
            &&& rem <= qty
            &&& side_qty(r) + qty == side_qty(side) + rem
            &&& count_orders(r) <= count_orders(side)
            &&& (rem == qty ==> r == side)
            &&& rem > 0 ==> first_reporting_up_to(r, limit) is None
        }),
    decreases qty, count_orders(side),
{
    if qty == 0 {
    } else {
        match first_reporting_up_to(side, limit) {
            Some(i) => {
                lemma_first_reporting_in_range(side, limit);
                if 0 <= i < side.len() && side[i].1.len() > 0 {
                    let (after, out, m) = match_oldest(side[i].1, qty);
                    lemma_match_oldest(side[i].1, qty);
                    let s2 = side.update(i, (side[i].0, after));
                    lemma_side_update(side, i, (side[i].0, after));
                    assert forall|k: int| 0 <= k < s2.len() implies all_positive(#[trigger] s2[k].1) by {
                        if k != i {
                            assert(s2[k] == side[k]);
                        }
                    }
                    lemma_sweep_up_to(s2, (qty - m) as nat, limit);
                    let (r, rem) = sweep_up_to(s2, (qty - m) as nat, limit);
                    assert forall|k: int| 0 <= k < r.len() implies #[trigger] r[k].0 == side[k].0 by {
                        assert(r[k].0 == s2[k].0);
                    }
                } else {
                    lemma_reporting_not_empty(side[i]);
                }
            },
            None => {},
        }
    }
}

/// The same for a sell sweeping the buy side.
pub proof fn lemma_sweep_down_to(side: Seq<(u64, Seq<Order>)>, qty: nat, limit: u64)
    requires
        levels_positive(side),
    ensures
        ({
            let (r, rem) = sweep_down_to(side, qty, limit);
            &&& levels_positive(r)
            &&& r.len() == side.len()
            &&& forall|i: int| 0 <= i < r.len() ==> #[trigger] r[i].0 == side[i].0
            &&& rem <= qty
            &&& side_qty(r) + qty == side_qty(side) + rem
            &&& count_orders(r) <= count_orders(side)
            &&& (rem == qty ==> r == side)
            &&& rem > 0 ==> last_reporting_down_to(r, limit) is None
        }),
    decreases qty, count_orders(side),
{
    if qty == 0 {
    } else {
        match last_reporting_down_to(side, limit) {
            Some(i) => {
                lemma_last_reporting_in_range(side, limit);
                if 0 <= i < side.len() && side[i].1.len() > 0 {
                    let (after, out, m) = match_oldest(side[i].1, qty);
                    lemma_match_oldest(side[i].1, qty);
                    let s2 = side.update(i, (side[i].0, after));
                    lemma_side_update(side, i, (side[i].0, after));
                    assert forall|k: int| 0 <= k < s2.len() implies all_positive(#[trigger] s2[k].1) by {
                        if k != i {
                            assert(s2[k] == side[k]);
                        }
                    }
                    lemma_sweep_down_to(s2, (qty - m) as nat, limit);
                    let (r, rem) = sweep_down_to(s2, (qty - m) as nat, limit);
                    assert forall|k: int| 0 <= k < r.len() implies #[trigger] r[k].0 == side[k].0 by {
                        assert(r[k].0 == s2[k].0);
                    }
                } else {
                    lemma_reporting_not_empty(side[i]);
                }
            },
            None => {},
        }
    }
}

pub proof fn lemma_first_reporting_in_range<T>(side: Seq<(u64, Seq<T>)>, limit: u64)
    ensures
        first_reporting_up_to(side, limit) matches Some(i) ==> 0 <= i < side.len() && reports_orders(side[i]),
    decreases side.len(),
{
    if side.len() > 0 && side[0].0 <= limit && !reports_orders(side[0]) {
        lemma_first_reporting_in_range(side.drop_first(), limit);
        if let Some(k) = first_reporting_up_to(side.drop_first(), limit) {
            assert(side.drop_first()[k] == side[k + 1]);
        }
    }
}

pub proof fn lemma_last_reporting_in_range<T>(side: Seq<(u64, Seq<T>)>, limit: u64)
    ensures
        last_reporting_down_to(side, limit) matches Some(i) ==> 0 <= i < side.len() && reports_orders(side[i]),
    decreases side.len(),
{
    if side.len() > 0 && side.last().0 >= limit && !reports_orders(side.last()) {
        lemma_last_reporting_in_range(side.drop_last(), limit);
        if let Some(k) = last_reporting_down_to(side.drop_last(), limit) {
            assert(side.drop_last()[k] == side[k]);
        }
    }
}

/// A reporting level is not empty.
pub proof fn lemma_reporting_not_empty<T>(l: (u64, Seq<T>))
    requires
        reports_orders(l),
    ensures
        l.1.len() > 0,
{
    if l.1.len() == 0 {
        vstd::arithmetic::div_mod::lemma_small_mod(0, (usize::MAX + 1) as nat);
    }
}

/// An arriving order keeps every queued order with something left, trades
/// no more than it asks for, and moves quantity only as a trade does: what
/// trades leaves the opposite side, what does not trade rests on the
/// order's own side, where no level it could have traded with still reports
/// orders.
pub proof fn lemma_book_after(bids: Seq<(u64, Seq<Order>)>, asks: Seq<(u64, Seq<Order>)>, order: Order)
    requires
        sorted_prices(bids),
        sorted_prices(asks),
        levels_positive(bids),
        levels_positive(asks),
    ensures
        ({
            let (b, a) = book_after(bids, asks, order);
            &&& order.order_type == OrderType::Buy ==> {
                let (r, rem) = sweep_up_to(asks, order.quantity as nat, order.price);
                &&& a == r
                &&& side_qty(a) + order.quantity == side_qty(asks) + rem
                &&& side_qty(b) == side_qty(bids) + rem
                &&& rem > 0 ==> first_reporting_up_to(a, order.price) is None
            }
            &&& order.order_type == OrderType::Sell ==> {
                let (r, rem) = sweep_down_to(bids, order.quantity as nat, order.price);
                &&& b == r
                &&& side_qty(b) + order.quantity == side_qty(bids) + rem
                &&& side_qty(a) == side_qty(asks) + rem
                &&& rem > 0 ==> last_reporting_down_to(b, order.price) is None
            }
        }),
{
    match order.order_type {
        OrderType::Buy => {
            lemma_sweep_up_to(asks, order.quantity as nat, order.price);
            let (r, rem) = sweep_up_to(asks, order.quantity as nat, order.price);
            if rem > 0 {
                lemma_rest_order_qty(bids, order.price, Order { quantity: rem as u64, ..order });
            }
        },
        OrderType::Sell => {
            lemma_sweep_down_to(bids, order.quantity as nat, order.price);
            let (r, rem) = sweep_down_to(bids, order.quantity as nat, order.price);
            if rem > 0 {
                lemma_rest_order_qty(asks, order.price, Order { quantity: rem as u64, ..order });
            }
        },
    }
}

/// Counting orders when an order arrives: its own side gains exactly one
/// order when a remainder of it rests and none otherwise; the opposite side
/// never gains an order, and is left as it was when nothing trades.
pub proof fn lemma_order_count(bids: Seq<(u64, Seq<Order>)>, asks: Seq<(u64, Seq<Order>)>, order: Order)
    requires
        sorted_prices(bids),
        sorted_prices(asks),
        levels_positive(bids),
        levels_positive(asks),
    ensures
        ({
            let (b, a) = book_after(bids, asks, order);
            &&& order.order_type == OrderType::Buy ==> {
                let rem = sweep_up_to(asks, order.quantity as nat, order.price).1;
                &&& count_orders(b) == count_orders(bids) + if rem > 0 { 1nat } else { 0nat }
                &&& count_orders(a) <= count_orders(asks)
                &&& (rem == order.quantity ==> a == asks)
            }
            &&& order.order_type == OrderType::Sell ==> {
                let rem = sweep_down_to(bids, order.quantity as nat, order.price).1;
                &&& count_orders(a) == count_orders(asks) + if rem > 0 { 1nat } else { 0nat }
                &&& count_orders(b) <= count_orders(bids)
                &&& (rem == order.quantity ==> b == bids)
            }
        }),
{
    match order.order_type {
        OrderType::Buy => {
            lemma_sweep_up_to(asks, order.quantity as nat, order.price);
            let (r, rem) = sweep_up_to(asks, order.quantity as nat, order.price);
            if rem > 0 {
                lemma_rest_order_qty(bids, order.price, Order { quantity: rem as u64, ..order });
            }
        },
        OrderType::Sell => {
            lemma_sweep_down_to(bids, order.quantity as nat, order.price);
            let (r, rem) = sweep_down_to(bids, order.quantity as nat, order.price);
            if rem > 0 {
                lemma_rest_order_qty(asks, order.price, Order { quantity: rem as u64, ..order });
            }
        },
    }
}

/// A side as the contracts see it: each level's price and queued orders.
pub open spec fn lf_side_view(levels: Seq<AtomicPriceLevel>) -> Seq<(u64, Seq<Order>)> {
    levels.map_values(|l: AtomicPriceLevel| l@)
}

/// Every level is consistent and prices increase from level to level.
pub open spec fn lf_side_wf(levels: Seq<AtomicPriceLevel>) -> bool {
    &&& forall|i: int| 0 <= i < levels.len() ==> (#[trigger] levels[i]).wf()
    &&& sorted_prices(lf_side_view(levels))
}

/// Rests `order` at `price`: queued at the level of that price, which is
/// created, in price order, if the side has none.
fn rest_on(levels: &mut Vec<AtomicPriceLevel>, price: u64, order: Order)
    requires
        lf_side_wf(old(levels)@),
        order.quantity > 0,
    ensures
        lf_side_wf(final(levels)@),
        lf_side_view(final(levels)@) == rest_order(lf_side_view(old(levels)@), price, order),
{
    let ghost before = lf_side_view(levels@);
    let mut i: usize = 0;
    while i < levels.len() && levels[i].price < price
        invariant
            i <= levels.len(),
            levels@ == old(levels)@,
            forall|j: int| 0 <= j < i ==> levels@[j]@.0 < price,
        decreases levels.len() - i,
    {
        i = i + 1;
    }
    proof {
        lemma_lower_bound(before, price, i as int);
    }
    if i < levels.len() && levels[i].price == price {
        levels[i].add_order(order);
        assert(lf_side_view(levels@) =~= before.update(i as int, (price, before[i as int].1.push(order))));
    } else {
        let mut level = AtomicPriceLevel::new(price);
        level.add_order(order);
        levels.insert(i, level);
        assert(Seq::<Order>::empty().push(order) =~= seq![order]);
        assert(lf_side_view(levels@) =~= before.insert(i as int, (price, seq![order])));
        assert forall|a: int, b: int| 0 <= a < b < levels@.len() implies lf_side_view(levels@)[a].0
            < lf_side_view(levels@)[b].0 by {
            if a < i && b > i {
                assert(levels@[b] == old(levels)@[b - 1]);
            } else if a == i && b > i {
                assert(levels@[b] == old(levels)@[b - 1]);
            } else if a > i {
                assert(levels@[a] == old(levels)@[a - 1]);
                assert(levels@[b] == old(levels)@[b - 1]);
            }
        }
    }
}

/// A book for one trading pair.
pub struct LockFreeOrderBook {
    trading_pair: TradingPair,
    /// Levels in increasing price order.
    buy_levels: Vec<AtomicPriceLevel>,
    /// Levels in increasing price order.
    sell_levels: Vec<AtomicPriceLevel>,
}

impl LockFreeOrderBook {
    /// The bids, level by level in increasing price order.
    pub closed spec fn bids(&self) -> Seq<(u64, Seq<Order>)> {
        lf_side_view(self.buy_levels@)
    }

    /// The asks, level by level in increasing price order.
    pub closed spec fn asks(&self) -> Seq<(u64, Seq<Order>)> {
        lf_side_view(self.sell_levels@)
    }

    /// The pair the book was made for.
    pub closed spec fn pair(&self) -> TradingPair {
        self.trading_pair
    }

    /// The book is consistent: sorted sides of consistent levels, and every
    /// queued order at the level of the price it was placed at.
    pub closed spec fn wf(&self) -> bool {
        &&& lf_side_wf(self.buy_levels@)
        &&& lf_side_wf(self.sell_levels@)
        &&& prices_match(self.bids())
        &&& prices_match(self.asks())
    }

    /// What a consistent book gives its laws: sorted sides whose queued
    /// orders all have something left and sit at the level of their own
    /// price.
    pub proof fn lemma_wf(&self)
        requires
            self.wf(),
        ensures
            sorted_prices(self.bids()),
            sorted_prices(self.asks()),
            levels_positive(self.bids()),
            levels_positive(self.asks()),
            prices_match(self.bids()),
            prices_match(self.asks()),
    {
        assert forall|i: int| 0 <= i < self.bids().len() implies all_positive(#[trigger] self.bids()[i].1) by {
            assert(self.buy_levels@[i].wf());
            assert(self.bids()[i] == self.buy_levels@[i]@);
        }
        assert forall|i: int| 0 <= i < self.asks().len() implies all_positive(#[trigger] self.asks()[i].1) by {
            assert(self.sell_levels@[i].wf());
            assert(self.asks()[i] == self.sell_levels@[i]@);
        }
    }

    /// An empty book for `trading_pair`.
    pub fn new(trading_pair: TradingPair) -> (r: Self)
        ensures
            r.wf(),
            r.pair() == trading_pair,
            r.bids() == Seq::<(u64, Seq<Order>)>::empty(),
            r.asks() == Seq::<(u64, Seq<Order>)>::empty(),
    {
        let r = LockFreeOrderBook { trading_pair, buy_levels: Vec::new(), sell_levels: Vec::new() };
        assert(r.bids() =~= Seq::<(u64, Seq<Order>)>::empty());
        assert(r.asks() =~= Seq::<(u64, Seq<Order>)>::empty());
        r
    }

    /// Adds an order: it sweeps the opposite side as [`book_after`] says, and
    /// what is left of it rests on its own side.
    pub fn add_order(&mut self, order: Order)
        requires
            old(self).wf(),
        ensures
            final(self).wf(),
            final(self).pair() == old(self).pair(),
            (final(self).bids(), final(self).asks()) == book_after(old(self).bids(), old(self).asks(), order),
    {
        self.process_order(order);
    }

    fn sweep_sells(&mut self, incoming_order: &mut Order)
        requires
            old(self).wf(),
        ensures
            final(self).wf(),
            final(self).pair() == old(self).pair(),
            final(self).bids() == old(self).bids(),
            (final(self).asks(), final(incoming_order).quantity as nat) == sweep_up_to(
                old(self).asks(),
                old(incoming_order).quantity as nat,
                old(incoming_order).price,
            ),
            *final(incoming_order) == (Order { quantity: final(incoming_order).quantity, ..*old(incoming_order) }),
    {
        let price = incoming_order.price;
        let mut matched_something = true;
        while incoming_order.quantity > 0 && matched_something
            invariant
                self.wf(),
                self.pair() == old(self).pair(),
                self.bids() == old(self).bids(),
                incoming_order.price == price,
                *incoming_order == (Order { quantity: incoming_order.quantity, ..*old(incoming_order) }),
                sweep_up_to(old(self).asks(), old(incoming_order).quantity as nat, price)
                    == sweep_up_to(self.asks(), incoming_order.quantity as nat, price),
                !matched_something ==> first_reporting_up_to(self.asks(), price) is None,
            decreases incoming_order.quantity * 2 + if matched_something { 1int } else { 0int },
        {
            matched_something = false;
            let ghost start = self.asks();
            let ghost start_q = incoming_order.quantity;
            let mut i: usize = 0;
            while i < self.sell_levels.len() && self.sell_levels[i].price <= price && !matched_something
                invariant
                    self.wf(),
                    self.pair() == old(self).pair(),
                    self.bids() == old(self).bids(),
                    incoming_order.price == price,
                    *incoming_order == (Order { quantity: incoming_order.quantity, ..*old(incoming_order) }),
                    i <= self.sell_levels.len(),
                    start_q > 0,
                    !matched_something ==> self.asks() == start && incoming_order.quantity == start_q
                        && forall|j: int| 0 <= j < i ==> !reports_orders(#[trigger] start[j]),
                    matched_something ==> sweep_up_to(start, start_q as nat, price) == sweep_up_to(
                        self.asks(),
                        incoming_order.quantity as nat,
                        price,
                    ) && incoming_order.quantity < start_q,
                decreases self.sell_levels.len() - i,
            {
                let ghost levels_before = self.sell_levels@;
                assert(start[i as int] == levels_before[i as int]@);
                match self.sell_levels[i].try_match(incoming_order.quantity) {
                    Some((_resting_order, match_quantity)) => {
                        proof {
                            lemma_first_reporting_found(start, price, i as int);
                            levels_before[i as int].lemma_wf();
                            assert(self.asks() =~= start.update(
                                i as int,
                                (start[i as int].0, match_oldest(start[i as int].1, start_q as nat).0),
                            ));
                            lemma_match_oldest_priced(start[i as int].1, start_q as nat, start[i as int].0);
                            let now_s = self.asks();
                            assert forall|j: int| 0 <= j < now_s.len() implies all_priced(#[trigger] now_s[j].1, now_s[j].0) by {
                                if j != i {
                                    assert(now_s[j] == start[j]);
                                }
                            }
                        }
                        incoming_order.quantity = incoming_order.quantity - match_quantity;
                        matched_something = true;
                    },
                    None => {
                        assert(self.asks() =~= start);
                    },
                }
                i = i + 1;
            }
            proof {
                if !matched_something {
                    lemma_first_reporting_none(start, price, i as int);
                }
            }
        }
    }

    fn sweep_buys(&mut self, incoming_order: &mut Order)
        requires
            old(self).wf(),
        ensures
            final(self).wf(),
            final(self).pair() == old(self).pair(),
            final(self).asks() == old(self).asks(),
            (final(self).bids(), final(incoming_order).quantity as nat) == sweep_down_to(
                old(self).bids(),
                old(incoming_order).quantity as nat,
                old(incoming_order).price,
            ),
            *final(incoming_order) == (Order { quantity: final(incoming_order).quantity, ..*old(incoming_order) }),
    {
        let price = incoming_order.price;
        let mut matched_something = true;
        while incoming_order.quantity > 0 && matched_something
            invariant
                self.wf(),
                self.pair() == old(self).pair(),
                self.asks() == old(self).asks(),
                incoming_order.price == price,
                *incoming_order == (Order { quantity: incoming_order.quantity, ..*old(incoming_order) }),
                sweep_down_to(old(self).bids(), old(incoming_order).quantity as nat, price)
                    == sweep_down_to(self.bids(), incoming_order.quantity as nat, price),
                !matched_something ==> last_reporting_down_to(self.bids(), price) is None,
            decreases incoming_order.quantity * 2 + if matched_something { 1int } else { 0int },
        {
            matched_something = false;
            let ghost start = self.bids();
            let ghost start_q = incoming_order.quantity;
            let mut i: usize = self.buy_levels.len();
            while i > 0 && self.buy_levels[i - 1].price >= price && !matched_something
                invariant
                    self.wf(),
                    self.pair() == old(self).pair(),
                    self.asks() == old(self).asks(),
                    incoming_order.price == price,
                    *incoming_order == (Order { quantity: incoming_order.quantity, ..*old(incoming_order) }),
                    i <= self.buy_levels.len(),
                    self.buy_levels.len() == start.len(),
                    start_q > 0,
                    !matched_something ==> self.bids() == start && incoming_order.quantity == start_q
                        && forall|j: int| i <= j < start.len() ==> !reports_orders(#[trigger] start[j]),
                    matched_something ==> sweep_down_to(start, start_q as nat, price) == sweep_down_to(
                        self.bids(),
                        incoming_order.quantity as nat,
                        price,
                    ) && incoming_order.quantity < start_q,
                decreases i,
            {
                let k = i - 1;
                let ghost levels_before = self.buy_levels@;
                assert(start[k as int] == levels_before[k as int]@);
                match self.buy_levels[k].try_match(incoming_order.quantity) {
                    Some((_resting_order, match_quantity)) => {
                        proof {
                            lemma_last_reporting_found(start, price, k as int);
                            levels_before[k as int].lemma_wf();
                            assert(self.bids() =~= start.update(
                                k as int,
                                (start[k as int].0, match_oldest(start[k as int].1, start_q as nat).0),
                            ));
                            lemma_match_oldest_priced(start[k as int].1, start_q as nat, start[k as int].0);
                            let now_s = self.bids();
                            assert forall|j: int| 0 <= j < now_s.len() implies all_priced(#[trigger] now_s[j].1, now_s[j].0) by {
                                if j != k {
                                    assert(now_s[j] == start[j]);
                                }
                            }
                        }
                        incoming_order.quantity = incoming_order.quantity - match_quantity;
                        matched_something = true;
                    },
                    None => {
                        assert(self.bids() =~= start);
                    },
                }
                i = k;
            }
            proof {
                if !matched_something {
                    lemma_last_reporting_none(start, price, i as int);
                }
            }
        }
    }

    fn process_order(&mut self, incoming_order: Order)
        requires
            old(self).wf(),
        ensures
            final(self).wf(),
            final(self).pair() == old(self).pair(),
            (final(self).bids(), final(self).asks()) == book_after(old(self).bids(), old(self).asks(), incoming_order),
    {
        let mut incoming_order = incoming_order;
        match incoming_order.order_type {
            OrderType::Buy => {
                self.sweep_sells(&mut incoming_order);
                if incoming_order.quantity > 0 {
                    proof {
                        lemma_rest_order_priced(self.bids(), incoming_order.price, incoming_order);
                    }
                    rest_on(&mut self.buy_levels, incoming_order.price, incoming_order);
                }
            },
            OrderType::Sell => {
                self.sweep_buys(&mut incoming_order);
                if incoming_order.quantity > 0 {
                    proof {
                        lemma_rest_order_priced(self.asks(), incoming_order.price, incoming_order);
                    }
                    rest_on(&mut self.sell_levels, incoming_order.price, incoming_order);
                }
            },
        }
    }

    /// The best bid and best ask: the highest buy level and the lowest sell
    /// level that report orders.
    pub fn get_best_bid_ask(&self) -> (r: (Option<u64>, Option<u64>))
        requires
            self.wf(),
        ensures
            r == (reported_best_bid(self.bids()), reported_best_ask(self.asks())),
            r.0 matches Some(b) ==> forall|j: int|
                0 <= j < self.bids().len() && reports_orders(#[trigger] self.bids()[j]) ==> self.bids()[j].0 <= b,
            r.1 matches Some(a) ==> forall|j: int|
                0 <= j < self.asks().len() && reports_orders(#[trigger] self.asks()[j]) ==> a <= self.asks()[j].0,
    {
        proof {
            lemma_reported_best_bid(self.bids());
            lemma_reported_best_ask(self.asks());
        }
        (best_reporting_bid(&self.buy_levels), best_reporting_ask(&self.sell_levels))
    }

    /// The mid price of the reported best bid and best ask.
    pub fn get_current_price(&self) -> (r: Option<MidPrice>)
        requires
            self.wf(),
        ensures
            r == mid_price(reported_best_bid(self.bids()), reported_best_ask(self.asks())),
    {
        let (bid, ask) = self.get_best_bid_ask();
        mid_price_of(bid, ask)
    }

    /// What the bid levels' counters and the ask levels' counters report,
    /// each summed wide enough never to overflow.
    pub fn order_counts_wide(&self) -> (n: (u128, u128))
        requires
            self.wf(),
        ensures
            n.0 == reported_total(self.bids()),
            n.1 == reported_total(self.asks()),
    {
        (count_reported_wide(&self.buy_levels), count_reported_wide(&self.sell_levels))
    }

    /// The sum of what the levels' counters report.
    pub fn get_active_orders_count(&self) -> (n: usize)
        requires
            self.wf(),
            reported_total(self.bids()) + reported_total(self.asks()) <= usize::MAX,
        ensures
            n == reported_total(self.bids()) + reported_total(self.asks()),
    {
        let buy_count = count_reported(&self.buy_levels);
        let sell_count = count_reported(&self.sell_levels);
        buy_count + sell_count
    }
}

pub proof fn lemma_reported_total_take<T>(side: Seq<(u64, Seq<T>)>, i: int)
    requires
        0 <= i < side.len(),
    ensures
        reported_total(side.take(i + 1)) == reported_total(side.take(i)) + wrapped_count(side[i].1.len() as int),
        reported_total(side.take(i + 1)) <= reported_total(side),
    decreases side.len(),
{
    assert(side.take(i + 1).drop_last() =~= side.take(i));
    if i + 1 < side.len() {
        lemma_reported_total_take(side.drop_last(), i);
        assert(side.drop_last().take(i + 1) =~= side.take(i + 1));
    } else {
        assert(side.take(i + 1) =~= side);
    }
}

pub proof fn lemma_reported_total_bound<T>(side: Seq<(u64, Seq<T>)>)
    requires
        side.len() <= usize::MAX,
    ensures
        reported_total(side) <= side.len() * usize::MAX,
    decreases side.len(),
{
    if side.len() > 0 {
        lemma_reported_total_bound(side.drop_last());
        assert(wrapped_count(side.last().1.len() as int) <= usize::MAX);
        assert(side.len() * usize::MAX == (side.len() - 1) * usize::MAX + usize::MAX) by (nonlinear_arith)
            requires side.len() > 0;
    }
}

/// On a side sorted by price, the reported best bid is the highest price of
/// a level that reports orders: it is the price of such a level, every such
/// level is priced at or below it, and there is none when no level reports
/// orders.
pub proof fn lemma_reported_best_bid<T>(side: Seq<(u64, Seq<T>)>)
    requires
        sorted_prices(side),
    ensures
        match reported_best_bid(side) {
            Some(b) => (exists|i: int| 0 <= i < side.len() && reports_orders(#[trigger] side[i]) && side[i].0 == b)
                && forall|j: int| 0 <= j < side.len() && reports_orders(#[trigger] side[j]) ==> side[j].0 <= b,
            None => forall|j: int| 0 <= j < side.len() ==> !reports_orders(#[trigger] side[j]),
        },
    decreases side.len(),
{
    if side.len() > 0 {
        let n = side.len() - 1;
        let rest = side.drop_last();
        if reports_orders(side[n]) {
            assert(reports_orders(side[n]) && side[n].0 == side.last().0);
            assert forall|j: int| 0 <= j < side.len() && reports_orders(#[trigger] side[j]) implies side[j].0 <= side.last().0 by {
                if j < n {
                    assert(side[j].0 < side[n].0);
                }
            }
        } else {
            assert forall|a: int, b: int| 0 <= a < b < rest.len() implies rest[a].0 < rest[b].0 by {
                assert(rest[a] == side[a]);
                assert(rest[b] == side[b]);
            }
            lemma_reported_best_bid(rest);
            match reported_best_bid(rest) {
                Some(b) => {
                    let i = choose|i: int| 0 <= i < rest.len() && reports_orders(#[trigger] rest[i]) && rest[i].0 == b;
                    assert(side[i] == rest[i]);
                    assert forall|j: int| 0 <= j < side.len() && reports_orders(#[trigger] side[j]) implies side[j].0 <= b by {
                        if j < n {
                            assert(side[j] == rest[j]);
                        }
                    }
                },
                None => {
                    assert forall|j: int| 0 <= j < side.len() implies !reports_orders(#[trigger] side[j]) by {
                        if j < n {
                            assert(side[j] == rest[j]);
                        }
                    }
                },
            }
        }
    }
}

/// On a side sorted by price, the reported best ask is the lowest price of
/// a level that reports orders: it is the price of such a level, every such
/// level is priced at or above it, and there is none when no level reports
/// orders.
pub proof fn lemma_reported_best_ask<T>(side: Seq<(u64, Seq<T>)>)
    requires
        sorted_prices(side),
    ensures
        match reported_best_ask(side) {
            Some(a) => (exists|i: int| 0 <= i < side.len() && reports_orders(#[trigger] side[i]) && side[i].0 == a)
                && forall|j: int| 0 <= j < side.len() && reports_orders(#[trigger] side[j]) ==> a <= side[j].0,
            None => forall|j: int| 0 <= j < side.len() ==> !reports_orders(#[trigger] side[j]),
        },
    decreases side.len(),
{
    if side.len() > 0 {
        let rest = side.drop_first();
        if reports_orders(side[0]) {
            assert(reports_orders(side[0]) && side[0].0 == side[0].0);
            assert forall|j: int| 0 <= j < side.len() && reports_orders(#[trigger] side[j]) implies side[0].0 <= side[j].0 by {
                if j > 0 {
                    assert(side[0].0 < side[j].0);
                }
            }
        } else {
            assert forall|a: int, b: int| 0 <= a < b < rest.len() implies rest[a].0 < rest[b].0 by {
                assert(rest[a] == side[a + 1]);
                assert(rest[b] == side[b + 1]);
            }
            lemma_reported_best_ask(rest);
            match reported_best_ask(rest) {
                Some(a) => {
                    let i = choose|i: int| 0 <= i < rest.len() && reports_orders(#[trigger] rest[i]) && rest[i].0 == a;
                    assert(side[i + 1] == rest[i]);
                    assert forall|j: int| 0 <= j < side.len() && reports_orders(#[trigger] side[j]) implies a <= side[j].0 by {
                        if j > 0 {
                            assert(side[j] == rest[j - 1]);
                        }
                    }
                },
                None => {
                    assert forall|j: int| 0 <= j < side.len() implies !reports_orders(#[trigger] side[j]) by {
                        if j > 0 {
                            assert(side[j] == rest[j - 1]);
                        }
                    }
                },
            }
        }
    }
}

/// The sum of what the levels' counters report, counted wide enough never to
/// overflow.
fn count_reported_wide(levels: &Vec<AtomicPriceLevel>) -> (n: u128)
    requires
        lf_side_wf(levels@),
    ensures
        n == reported_total(lf_side_view(levels@)),
{
    let ghost side = lf_side_view(levels@);
    let len = levels.len();
    proof {
        assert(side.len() == len);
        lemma_reported_total_bound(side);
        assert(side.len() * usize::MAX <= usize::MAX * usize::MAX) by (nonlinear_arith)
            requires side.len() <= usize::MAX;
        assert(usize::MAX * usize::MAX <= 0xffff_ffff_ffff_ffff * 0xffff_ffff_ffff_ffff) by (nonlinear_arith)
            requires usize::MAX <= 0xffff_ffff_ffff_ffff;
    }
    let mut n: u128 = 0;
    let mut i: usize = 0;
    while i < levels.len()
        invariant
            i <= levels.len(),
            side == lf_side_view(levels@),
            lf_side_wf(levels@),
            reported_total(side) <= u128::MAX,
            n == reported_total(side.take(i as int)),
        decreases levels.len() - i,
    {
        proof {
            lemma_reported_total_take(side, i as int);
        }
        assert(side[i as int] == levels@[i as int]@);
        n = n + levels[i].get_order_count() as u128;
        i = i + 1;
    }
    assert(side.take(i as int) =~= side);
    n
}

fn count_reported(levels: &Vec<AtomicPriceLevel>) -> (n: usize)
    requires
        lf_side_wf(levels@),
        reported_total(lf_side_view(levels@)) <= usize::MAX,
    ensures
        n == reported_total(lf_side_view(levels@)),
{
    let ghost side = lf_side_view(levels@);
    let mut n: usize = 0;
    let mut i: usize = 0;
    while i < levels.len()
        invariant
            i <= levels.len(),
            side == lf_side_view(levels@),
            lf_side_wf(levels@),
            reported_total(side) <= usize::MAX,
            n == reported_total(side.take(i as int)),
        decreases levels.len() - i,
    {
        proof {
            lemma_reported_total_take(side, i as int);
        }
        assert(side[i as int] == levels@[i as int]@);
        n = n + levels[i].get_order_count();
        i = i + 1;
    }
    assert(side.take(i as int) =~= side);
    n
}

/// The price of the highest level of `levels` whose counter reports orders.
fn best_reporting_bid(levels: &Vec<AtomicPriceLevel>) -> (r: Option<u64>)
    requires
        lf_side_wf(levels@),
    ensures
        r == reported_best_bid(lf_side_view(levels@)),
{
    let ghost side = lf_side_view(levels@);
    let mut i: usize = levels.len();
    assert(side.take(i as int) =~= side);
    while i > 0
        invariant
            i <= levels.len(),
            side == lf_side_view(levels@),
            lf_side_wf(levels@),
            reported_best_bid(side) == reported_best_bid(side.take(i as int)),
        decreases i,
    {
        let ghost t = side.take(i as int);
        assert(t.last() == levels@[i - 1]@);
        assert(t.drop_last() =~= side.take(i - 1));
        if levels[i - 1].get_order_count() > 0 {
            return Some(levels[i - 1].price);
        }
        i = i - 1;
    }
    assert(side.take(0).len() == 0);
    None
}

/// The price of the lowest level of `levels` whose counter reports orders.
fn best_reporting_ask(levels: &Vec<AtomicPriceLevel>) -> (r: Option<u64>)
    requires
        lf_side_wf(levels@),
    ensures
        r == reported_best_ask(lf_side_view(levels@)),
{
    let ghost side = lf_side_view(levels@);
    let mut i: usize = 0;
    assert(side.skip(0) =~= side);
    while i < levels.len()
        invariant
            i <= levels.len(),
            side == lf_side_view(levels@),
            lf_side_wf(levels@),
            reported_best_ask(side) == reported_best_ask(side.skip(i as int)),
        decreases levels.len() - i,
    {
        let ghost t = side.skip(i as int);
        assert(t[0] == levels@[i as int]@);
        assert(t.drop_first() =~= side.skip(i + 1));
        if levels[i].get_order_count() > 0 {
            return Some(levels[i].price);
        }
        i = i + 1;
    }
    assert(side.skip(i as int).len() == 0);
    None
}

/// One match keeps the orders of a level at the level's price, and the
/// order it hands out too.
pub proof fn lemma_match_oldest_priced<T: Quantified>(orders: Seq<T>, needed: nat, p: u64)
    requires
        orders.len() > 0,
        all_priced(orders, p),
    ensures
        all_priced(match_oldest(orders, needed).0, p),
        match_oldest(orders, needed).1.price_of() == p,
{
    let (after, out, m) = match_oldest(orders, needed);
    orders[0].lemma_with_qty((orders[0].qty() - m) as u64);
    assert forall|i: int| 0 <= i < after.len() implies #[trigger] after[i].price_of() == p by {
        if i < orders.len() - 1 {
            assert(after[i] == orders[i + 1]);
        }
    }
}

} // verus!
