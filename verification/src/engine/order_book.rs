//! A book that only collects orders when they arrive; matching is a separate
//! step that crosses the best bid with the best ask, level after level, for
//! as long as they cross, and records every trade.

use vstd::prelude::*;
use crate::engine::api::OrderBookEntry;
use crate::engine::models::{now, trade_terms, Order, OrderType, Trade, TradingPair};
use crate::level::{
    all_priced, lemma_sum_qty_bound, lemma_sum_qty_first, lemma_sum_qty_update_first, sum_qty, Quantified,
};
use crate::models::{mid_price, mid_price_of, MidPrice, PRECISION};
use crate::side::{
    count_orders, highest_price, lemma_count_orders_bound, lemma_count_orders_first,
    lemma_count_orders_take, lemma_lower_bound, lemma_rest_order_priced, lemma_rest_order_qty,
    lemma_side_qty_first, lemma_side_update, lowest_price, prices_match, rest_order, side_qty,
    sorted_prices,
};

verus! {

/// The price a book with no orders reports: 50 000 units.
pub const DEFAULT_PRICE: u64 = 50_000 * PRECISION;

/// Crosses the orders of one bid level with those of one ask level, oldest
/// first on both: the two front orders trade the smaller of their
/// quantities, and an order that has nothing left leaves its list. Stops when
/// a list is empty. Gives what is left of both lists and, for each trade,
/// the buy order id, the sell order id and the quantity.
pub open spec fn cross(buys: Seq<Order>, sells: Seq<Order>) -> (Seq<Order>, Seq<Order>, Seq<(u64, u64, u64)>)
    decreases buys.len() + sells.len(),
{
    if buys.len() == 0 || sells.len() == 0 {
        (buys, sells, Seq::empty())
    } else {
        let b = buys[0];
        let s = sells[0];
        let q = if b.quantity < s.quantity { b.quantity } else { s.quantity };
        let buys2 = if b.quantity - q == 0 { buys.drop_first() } else { buys.update(0, Order { quantity: (b.quantity - q) as u64, ..b }) };
        let sells2 = if s.quantity - q == 0 { sells.drop_first() } else { sells.update(0, Order { quantity: (s.quantity - q) as u64, ..s }) };
        let r = cross(buys2, sells2);
        (r.0, r.1, seq![(b.id, s.id, q)] + r.2)
    }
}

/// Crossing keeps time priority on both sides: what is left of each list is
/// the list without its first orders (those filled whole), its new first
/// order possibly reduced in quantity but otherwise the same, and the rest
/// untouched.
pub proof fn lemma_cross_time_priority(buys: Seq<Order>, sells: Seq<Order>)
    ensures
        ({
            let (b2, s2, _) = cross(buys, sells);
            let kb = buys.len() - b2.len();
            let ks = sells.len() - s2.len();
            &&& b2.len() <= buys.len()
            &&& s2.len() <= sells.len()
            &&& forall|i: int| 0 < i < b2.len() ==> #[trigger] b2[i] == buys[kb + i]
            &&& forall|i: int| 0 < i < s2.len() ==> #[trigger] s2[i] == sells[ks + i]
            &&& b2.len() > 0 ==> b2[0] == (Order { quantity: b2[0].quantity, ..buys[kb] })
            &&& s2.len() > 0 ==> s2[0] == (Order { quantity: s2[0].quantity, ..sells[ks] })
        }),
    decreases buys.len() + sells.len(),
{
    if buys.len() > 0 && sells.len() > 0 {
        let b = buys[0];
        let s = sells[0];
        let q = if b.quantity < s.quantity { b.quantity } else { s.quantity };
        let buys2 = if b.quantity - q == 0 { buys.drop_first() } else { buys.update(0, Order { quantity: (b.quantity - q) as u64, ..b }) };
        let sells2 = if s.quantity - q == 0 { sells.drop_first() } else { sells.update(0, Order { quantity: (s.quantity - q) as u64, ..s }) };
        lemma_cross_time_priority(buys2, sells2);
        let (b2, s2, _) = cross(buys2, sells2);
        let kb = buys.len() - b2.len();
        let ks = sells.len() - s2.len();
        let kb2 = buys2.len() - b2.len();
        let ks2 = sells2.len() - s2.len();
        if b.quantity - q == 0 {
            assert forall|i: int| 0 < i < b2.len() implies #[trigger] b2[i] == buys[kb + i] by {
                assert(buys2[kb2 + i] == buys[kb + i]);
            }
            if b2.len() > 0 {
                assert(buys2[kb2] == buys[kb]);
            }
        } else {
            assert forall|i: int| 0 < i < b2.len() implies #[trigger] b2[i] == buys[kb + i] by {
                assert(buys2[kb2 + i] == buys[kb + i]);
            }
            if b2.len() > 0 && kb2 > 0 {
                assert(buys2[kb2] == buys[kb]);
            }
        }
        if s.quantity - q == 0 {
            assert forall|i: int| 0 < i < s2.len() implies #[trigger] s2[i] == sells[ks + i] by {
                assert(sells2[ks2 + i] == sells[ks + i]);
            }
            if s2.len() > 0 {
                assert(sells2[ks2] == sells[ks]);
            }
        } else {
            assert forall|i: int| 0 < i < s2.len() implies #[trigger] s2[i] == sells[ks + i] by {
                assert(sells2[ks2 + i] == sells[ks + i]);
            }
            if s2.len() > 0 && ks2 > 0 {
                assert(sells2[ks2] == sells[ks]);
            }
        }
    }
}

/// The trades of one crossing, priced at `price`: buy id, sell id, price,
/// quantity.
pub open spec fn priced(fills: Seq<(u64, u64, u64)>, price: u64) -> Seq<(u64, u64, u64, u64)> {
    fills.map_values(|f: (u64, u64, u64)| (f.0, f.1, price, f.2))
}

pub proof fn lemma_cross(buys: Seq<Order>, sells: Seq<Order>)
    ensures
        cross(buys, sells).0.len() == 0 || cross(buys, sells).1.len() == 0,
        cross(buys, sells).2.len() + cross(buys, sells).0.len() + cross(buys, sells).1.len() <= buys.len() + sells.len(),
        cross(buys, sells).0.len() <= buys.len(),
        cross(buys, sells).1.len() <= sells.len(),
    decreases buys.len() + sells.len(),
{
    if buys.len() == 0 || sells.len() == 0 {
    } else {
        let b = buys[0];
        let s = sells[0];
        let q = if b.quantity < s.quantity { b.quantity } else { s.quantity };
        let buys2 = if b.quantity - q == 0 { buys.drop_first() } else { buys.update(0, Order { quantity: (b.quantity - q) as u64, ..b }) };
        let sells2 = if s.quantity - q == 0 { sells.drop_first() } else { sells.update(0, Order { quantity: (s.quantity - q) as u64, ..s }) };
        lemma_cross(buys2, sells2);
    }
}

/// Matching a book: while the best bid is at or above the best ask, the two
/// levels cross, trades priced at the ask; a level left empty leaves its
/// side. Gives the bids and asks after, and every trade as buy id, sell id,
/// price, quantity, in the order made.
pub open spec fn match_book(
    bids: Seq<(u64, Seq<Order>)>,
    asks: Seq<(u64, Seq<Order>)>,
) -> (Seq<(u64, Seq<Order>)>, Seq<(u64, Seq<Order>)>, Seq<(u64, u64, u64, u64)>)
    decreases bids.len() + asks.len(),
{
    if bids.len() > 0 && asks.len() > 0 && bids.last().0 >= asks[0].0 {
        let c = cross(bids.last().1, asks[0].1);
        let bids2 = if c.0.len() == 0 { bids.drop_last() } else { bids.update(bids.len() - 1, (bids.last().0, c.0)) };
        let asks2 = if c.1.len() == 0 { asks.drop_first() } else { asks.update(0, (asks[0].0, c.1)) };
        proof {
            lemma_cross(bids.last().1, asks[0].1);
        }
        let m = match_book(bids2, asks2);
        (m.0, m.1, priced(c.2, asks[0].0) + m.2)
    } else {
        (bids, asks, Seq::empty())
    }
}

/// Total quantity of a run of fills (buy id, sell id, quantity).
pub open spec fn filled_qty(fills: Seq<(u64, u64, u64)>) -> nat
    decreases fills.len(),
{
    if fills.len() == 0 {
        0
    } else {
        fills[0].2 as nat + filled_qty(fills.drop_first())
    }
}

/// Total quantity of a run of trades (buy id, sell id, price, quantity).
pub open spec fn traded_qty(trades: Seq<(u64, u64, u64, u64)>) -> nat
    decreases trades.len(),
{
    if trades.len() == 0 {
        0
    } else {
        trades[0].3 as nat + traded_qty(trades.drop_first())
    }
}

pub proof fn lemma_traded_qty_concat(a: Seq<(u64, u64, u64, u64)>, b: Seq<(u64, u64, u64, u64)>)
    ensures
        traded_qty(a + b) == traded_qty(a) + traded_qty(b),
    decreases a.len(),
{
    if a.len() > 0 {
        lemma_traded_qty_concat(a.drop_first(), b);
        assert((a + b).drop_first() =~= a.drop_first() + b);
    } else {
        assert(a + b =~= b);
    }
}

pub proof fn lemma_priced_qty(fills: Seq<(u64, u64, u64)>, price: u64)
    ensures
        traded_qty(priced(fills, price)) == filled_qty(fills),
    decreases fills.len(),
{
    if fills.len() > 0 {
        lemma_priced_qty(fills.drop_first(), price);
        assert(priced(fills, price).drop_first() =~= priced(fills.drop_first(), price));
    }
}

/// Crossing two levels takes the same quantity out of each: the quantity of
/// its fills.
pub proof fn lemma_cross_qty(buys: Seq<Order>, sells: Seq<Order>)
    ensures
        sum_qty(buys) == sum_qty(cross(buys, sells).0) + filled_qty(cross(buys, sells).2),
        sum_qty(sells) == sum_qty(cross(buys, sells).1) + filled_qty(cross(buys, sells).2),
    decreases buys.len() + sells.len(),
{
    if buys.len() == 0 || sells.len() == 0 {
    } else {
        let b = buys[0];
        let s = sells[0];
        let q = if b.quantity < s.quantity { b.quantity } else { s.quantity };
        let buys2 = if b.quantity - q == 0 { buys.drop_first() } else { buys.update(0, Order { quantity: (b.quantity - q) as u64, ..b }) };
        let sells2 = if s.quantity - q == 0 { sells.drop_first() } else { sells.update(0, Order { quantity: (s.quantity - q) as u64, ..s }) };
        lemma_sum_qty_first(buys);
        lemma_sum_qty_first(sells);
        if b.quantity - q != 0 {
            lemma_sum_qty_update_first(buys, Order { quantity: (b.quantity - q) as u64, ..b });
        }
        if s.quantity - q != 0 {
            lemma_sum_qty_update_first(sells, Order { quantity: (s.quantity - q) as u64, ..s });
        }
        lemma_cross_qty(buys2, sells2);
        let f = seq![(b.id, s.id, q)] + cross(buys2, sells2).2;
        assert(f.drop_first() =~= cross(buys2, sells2).2);
    }
}

/// Matching takes the same quantity out of both sides: the quantity of its
/// trades.
pub proof fn lemma_match_book_qty(bids: Seq<(u64, Seq<Order>)>, asks: Seq<(u64, Seq<Order>)>)
    ensures
        side_qty(bids) == side_qty(match_book(bids, asks).0) + traded_qty(match_book(bids, asks).2),
        side_qty(asks) == side_qty(match_book(bids, asks).1) + traded_qty(match_book(bids, asks).2),
    decreases bids.len() + asks.len(),
{
    if bids.len() > 0 && asks.len() > 0 && bids.last().0 >= asks[0].0 {
        let c = cross(bids.last().1, asks[0].1);
        lemma_cross(bids.last().1, asks[0].1);
        lemma_cross_qty(bids.last().1, asks[0].1);
        let n = bids.len() - 1;
        let bids2 = if c.0.len() == 0 { bids.drop_last() } else { bids.update(n, (bids.last().0, c.0)) };
        let asks2 = if c.1.len() == 0 { asks.drop_first() } else { asks.update(0, (asks[0].0, c.1)) };
        assert(side_qty(bids) == side_qty(bids.drop_last()) + sum_qty(bids.last().1));
        lemma_side_qty_first(asks);
        if c.0.len() != 0 {
            lemma_side_update(bids, n, (bids.last().0, c.0));
        } else {
            assert(sum_qty(c.0) == 0);
        }
        if c.1.len() != 0 {
            lemma_side_update(asks, 0, (asks[0].0, c.1));
        } else {
            assert(sum_qty(c.1) == 0);
        }
        lemma_match_book_qty(bids2, asks2);
        lemma_priced_qty(c.2, asks[0].0);
        lemma_traded_qty_concat(priced(c.2, asks[0].0), match_book(bids2, asks2).2);
    }
}

/// Crossing two lists of orders keeps what is left of each at its price.
proof fn lemma_cross_priced(buys: Seq<Order>, sells: Seq<Order>, pb: u64, ps: u64)
    requires
        all_priced(buys, pb),
        all_priced(sells, ps),
    ensures
        all_priced(cross(buys, sells).0, pb),
        all_priced(cross(buys, sells).1, ps),
    decreases buys.len() + sells.len(),
{
    if buys.len() > 0 && sells.len() > 0 {
        let b = buys[0];
        let s = sells[0];
        let q = if b.quantity < s.quantity { b.quantity } else { s.quantity };
        let buys2 = if b.quantity - q == 0 { buys.drop_first() } else { buys.update(0, Order { quantity: (b.quantity - q) as u64, ..b }) };
        let sells2 = if s.quantity - q == 0 { sells.drop_first() } else { sells.update(0, Order { quantity: (s.quantity - q) as u64, ..s }) };
        assert forall|k: int| 0 <= k < buys2.len() implies #[trigger] buys2[k].price_of() == pb by {
            if b.quantity - q == 0 {
                assert(buys2[k] == buys[k + 1]);
            } else if k > 0 {
                assert(buys2[k] == buys[k]);
            } else {
                assert(buys[0].price_of() == pb);
            }
        }
        assert forall|k: int| 0 <= k < sells2.len() implies #[trigger] sells2[k].price_of() == ps by {
            if s.quantity - q == 0 {
                assert(sells2[k] == sells[k + 1]);
            } else if k > 0 {
                assert(sells2[k] == sells[k]);
            } else {
                assert(sells[0].price_of() == ps);
            }
        }
        lemma_cross_priced(buys2, sells2, pb, ps);
    }
}

/// Matching keeps every resting order at the level of its own price.
pub proof fn lemma_match_book_priced(bids: Seq<(u64, Seq<Order>)>, asks: Seq<(u64, Seq<Order>)>)
    requires
        prices_match(bids),
        prices_match(asks),
    ensures
        prices_match(match_book(bids, asks).0),
        prices_match(match_book(bids, asks).1),
    decreases bids.len() + asks.len(),
{
    if bids.len() > 0 && asks.len() > 0 && bids.last().0 >= asks[0].0 {
        let n = bids.len() - 1;
        let c = cross(bids.last().1, asks[0].1);
        lemma_cross(bids.last().1, asks[0].1);
        assert(all_priced(bids[n].1, bids[n].0));
        assert(all_priced(asks[0].1, asks[0].0));
        lemma_cross_priced(bids.last().1, asks[0].1, bids.last().0, asks[0].0);
        let bids2 = if c.0.len() == 0 { bids.drop_last() } else { bids.update(n, (bids.last().0, c.0)) };
        let asks2 = if c.1.len() == 0 { asks.drop_first() } else { asks.update(0, (asks[0].0, c.1)) };
        assert forall|k: int| 0 <= k < bids2.len() implies all_priced(#[trigger] bids2[k].1, bids2[k].0) by {
            if k < n {
                assert(bids2[k] == bids[k]);
            }
        }
        assert forall|k: int| 0 <= k < asks2.len() implies all_priced(#[trigger] asks2[k].1, asks2[k].0) by {
            if c.1.len() == 0 {
                assert(asks2[k] == asks[k + 1]);
            } else if k > 0 {
                assert(asks2[k] == asks[k]);
            }
        }
        lemma_match_book_priced(bids2, asks2);
    }
}

/// Matching a book a second time changes nothing: once matched, the book is
/// not crossed, so the next match makes no trade and leaves both sides as
/// they are.
pub proof fn lemma_match_twice(bids: Seq<(u64, Seq<Order>)>, asks: Seq<(u64, Seq<Order>)>)
    requires
        side_ok(bids),
        side_ok(asks),
    ensures
        ({
            let m = match_book(bids, asks);
            match_book(m.0, m.1) == (m.0, m.1, Seq::<(u64, u64, u64, u64)>::empty())
        }),
{
    lemma_match_book(bids, asks);
}

/// Prices increase strictly and no level is empty.
pub open spec fn side_ok(side: Seq<(u64, Seq<Order>)>) -> bool {
    &&& sorted_prices(side)
    &&& forall|i: int| 0 <= i < side.len() ==> #[trigger] side[i].1.len() > 0
}

/// Matching keeps both sides sorted with no empty level, and every trade
/// takes at least one order off the book.
pub proof fn lemma_match_book(bids: Seq<(u64, Seq<Order>)>, asks: Seq<(u64, Seq<Order>)>)
    requires
        side_ok(bids),
        side_ok(asks),
    ensures
        side_ok(match_book(bids, asks).0),
        side_ok(match_book(bids, asks).1),
        match_book(bids, asks).2.len() + count_orders(match_book(bids, asks).0) + count_orders(match_book(bids, asks).1)
            <= count_orders(bids) + count_orders(asks),
        !(match_book(bids, asks).0.len() > 0 && match_book(bids, asks).1.len() > 0
            && match_book(bids, asks).0.last().0 >= match_book(bids, asks).1[0].0),
    decreases bids.len() + asks.len(),
{
    if bids.len() > 0 && asks.len() > 0 && bids.last().0 >= asks[0].0 {
        let c = cross(bids.last().1, asks[0].1);
        lemma_cross(bids.last().1, asks[0].1);
        let n = bids.len() - 1;
        let bids2 = if c.0.len() == 0 { bids.drop_last() } else { bids.update(n, (bids.last().0, c.0)) };
        let asks2 = if c.1.len() == 0 { asks.drop_first() } else { asks.update(0, (asks[0].0, c.1)) };
        assert(count_orders(bids) == count_orders(bids.drop_last()) + bids.last().1.len());
        lemma_count_orders_first(asks);
        if c.0.len() != 0 {
            lemma_side_update(bids, n, (bids.last().0, c.0));
        }
        if c.1.len() != 0 {
            lemma_side_update(asks, 0, (asks[0].0, c.1));
        }
        assert forall|i: int| 0 <= i < bids2.len() implies #[trigger] bids2[i].1.len() > 0 by {
            if i < n {
                assert(bids2[i] == bids[i]);
            }
        }
        assert forall|i: int| 0 <= i < asks2.len() implies #[trigger] asks2[i].1.len() > 0 by {
            if c.1.len() == 0 {
                assert(asks2[i] == asks[i + 1]);
            } else if i > 0 {
                assert(asks2[i] == asks[i]);
            }
        }
        assert(sorted_prices(asks2)) by {
            if c.1.len() == 0 {
                assert forall|a: int, b: int| 0 <= a < b < asks2.len() implies asks2[a].0 < asks2[b].0 by {
                    assert(asks2[a] == asks[a + 1]);
                    assert(asks2[b] == asks[b + 1]);
                }
            }
        }
        lemma_match_book(bids2, asks2);
        assert(priced(c.2, asks[0].0).len() == c.2.len());
    }
}

/// A price and the orders resting at it, oldest first.
#[derive(Debug)]
struct PriceOrders {
    price: u64,
    orders: Vec<Order>,
}

spec fn orders_view(l: PriceOrders) -> (u64, Seq<Order>) {
    (l.price, l.orders@)
}

spec fn side_of(levels: Seq<PriceOrders>) -> Seq<(u64, Seq<Order>)> {
    levels.map_values(|l: PriceOrders| orders_view(l))
}

/// Rests `order` at `price`, behind the orders there, or on a new level put
/// in price order.
fn rest_at(levels: &mut Vec<PriceOrders>, price: u64, order: Order)
    requires
        side_ok(side_of(old(levels)@)),
    ensures
        side_ok(side_of(final(levels)@)),
        side_of(final(levels)@) == rest_order(side_of(old(levels)@), price, order),
{
    let ghost before = side_of(levels@);
    let mut i: usize = 0;
    while i < levels.len() && levels[i].price < price
        invariant
            i <= levels.len(),
            levels@ == old(levels)@,
            forall|j: int| 0 <= j < i ==> levels@[j].price < price,
        decreases levels.len() - i,
    {
        i = i + 1;
    }
    proof {
        lemma_lower_bound(before, price, i as int);
    }
    if i < levels.len() && levels[i].price == price {
        levels[i].orders.push(order);
        assert(side_of(levels@) =~= before.update(i as int, (price, before[i as int].1.push(order))));
        assert forall|k: int| 0 <= k < levels@.len() implies #[trigger] side_of(levels@)[k].1.len() > 0 by {
            if k != i {
                assert(side_of(levels@)[k] == before[k]);
            }
        }
    } else {
        let mut orders = Vec::new();
        orders.push(order);
        levels.insert(i, PriceOrders { price, orders });
        assert(side_of(levels@) =~= before.insert(i as int, (price, seq![order])));
        assert forall|k: int| 0 <= k < levels@.len() implies #[trigger] side_of(levels@)[k].1.len() > 0 by {
            if k < i {
                assert(side_of(levels@)[k] == before[k]);
            } else if k > i {
                assert(side_of(levels@)[k] == before[k - 1]);
            }
        }
        assert forall|a: int, b: int| 0 <= a < b < levels@.len() implies side_of(levels@)[a].0 < side_of(levels@)[b].0 by {
            if a < i && b > i {
                assert(levels@[b] == old(levels)@[b - 1]);
            } else if a == i && b > i {
                assert(levels@[b] == old(levels)@[b - 1]);
            } else if a > i {
                assert(levels@[a] == old(levels)@[a - 1]);
                assert(levels@[b] == old(levels)@[b - 1]);
            }
        }
    }
}

/// The trades `trades[from..]` are the crossing `fills` priced at `price`,
/// numbered on from `from + 1`, for `pair`.
pub open spec fn recorded(trades: Seq<Trade>, from: int, fills: Seq<(u64, u64, u64)>, price: u64, pair: TradingPair) -> bool {
    &&& trades.len() == from + fills.len()
    &&& forall|k: int| 0 <= k < fills.len() ==> {
        let t = #[trigger] trades[from + k];
        &&& trade_terms(t) == (fills[k].0, fills[k].1, price, fills[k].2)
        &&& t.id == from + k + 1
        &&& t.trading_pair == pair
    }
}

/// Crosses the orders of a bid level with those of an ask level, as
/// [`cross`] says, and records a trade priced at `price` for each fill.
fn cross_levels(
    pair: &TradingPair,
    buys: &mut Vec<Order>,
    sells: &mut Vec<Order>,
    price: u64,
    trades: &mut Vec<Trade>,
)
    requires
        old(trades).len() + old(buys).len() + old(sells).len() <= u64::MAX,
    ensures
        final(buys)@ == cross(old(buys)@, old(sells)@).0,
        final(sells)@ == cross(old(buys)@, old(sells)@).1,
        final(trades)@.subrange(0, old(trades).len() as int) == old(trades)@,
        recorded(final(trades)@, old(trades).len() as int, cross(old(buys)@, old(sells)@).2, price, *pair),
{
    let ghost b0 = buys@;
    let ghost s0 = sells@;
    let ghost from = trades.len() as int;
    let ghost mut made: Seq<(u64, u64, u64)> = Seq::empty();
    let mut i: usize = 0;
    let mut j: usize = 0;
    assert(buys@.skip(0) =~= b0);
    assert(sells@.skip(0) =~= s0);
    assert(made + cross(b0, s0).2 =~= cross(b0, s0).2);
    assert(trades@.subrange(0, from) =~= old(trades)@);
    while i < buys.len() && j < sells.len()
        invariant
            i <= buys.len(),
            j <= sells.len(),
            buys.len() == b0.len(),
            sells.len() == s0.len(),
            from == old(trades).len(),
            from + b0.len() + s0.len() <= u64::MAX,
            from + made.len() + (buys.len() - i) + (sells.len() - j) <= from + b0.len() + s0.len(),
            cross(b0, s0) == ({
                let c = cross(buys@.skip(i as int), sells@.skip(j as int));
                (c.0, c.1, made + c.2)
            }),
            trades@.subrange(0, from) == old(trades)@,
            recorded(trades@, from, made, price, *pair),
        decreases buys.len() - i + sells.len() - j,
    {
        let ghost bs = buys@.skip(i as int);
        let ghost ss = sells@.skip(j as int);
        let buy_id = buys[i].id;
        let sell_id = sells[j].id;
        let bq = buys[i].quantity;
        let sq = sells[j].quantity;
        let trade_quantity = if bq < sq { bq } else { sq };
        let id = trades.len() as u64 + 1;
        let trade = Trade {
            id,
            trading_pair: pair.clone(),
            buy_order_id: buy_id,
            sell_order_id: sell_id,
            price,
            quantity: trade_quantity,
            timestamp: now(),
        };
        let ghost tb = trades@;
        let ghost tg = trade;
        trades.push(trade);
        assert(trades@ == tb.push(tg));
        assert(trades@.subrange(0, from) =~= tb.subrange(0, from));
        buys[i].set_quantity(bq - trade_quantity);
        sells[j].set_quantity(sq - trade_quantity);
        proof {
            made = made.push((buy_id, sell_id, trade_quantity));
            let buys2 = if bq - trade_quantity == 0 { bs.drop_first() } else { bs.update(0, Order { quantity: (bq - trade_quantity) as u64, ..bs[0] }) };
            let sells2 = if sq - trade_quantity == 0 { ss.drop_first() } else { ss.update(0, Order { quantity: (sq - trade_quantity) as u64, ..ss[0] }) };
            assert(seq![(buy_id, sell_id, trade_quantity)] + cross(buys2, sells2).2 =~= cross(bs, ss).2);
            assert(made + cross(buys2, sells2).2 =~= (made.drop_last()) + cross(bs, ss).2);
            assert forall|k: int| 0 <= k < made.len() implies {
                let t = #[trigger] trades@[from + k];
                &&& trade_terms(t) == (made[k].0, made[k].1, price, made[k].2)
                &&& t.id == from + k + 1
                &&& t.trading_pair == *pair
            } by {
                if k < made.len() - 1 {
                    assert(trades@[from + k] == tb[from + k]);
                }
            }
        }
        if buys[i].quantity == 0 {
            i = i + 1;
        }
        if sells[j].quantity == 0 {
            j = j + 1;
        }
        proof {
            let buys2 = if bq - trade_quantity == 0 { bs.drop_first() } else { bs.update(0, Order { quantity: (bq - trade_quantity) as u64, ..bs[0] }) };
            let sells2 = if sq - trade_quantity == 0 { ss.drop_first() } else { ss.update(0, Order { quantity: (sq - trade_quantity) as u64, ..ss[0] }) };
            assert(buys@.skip(i as int) =~= buys2);
            assert(sells@.skip(j as int) =~= sells2);
        }
    }
    let rest_buys = buys.split_off(i);
    *buys = rest_buys;
    let rest_sells = sells.split_off(j);
    *sells = rest_sells;
    proof {
        assert(made + Seq::<(u64, u64, u64)>::empty() =~= made);
    }
}

/// The price a book reports: the mid price of its best bid and best ask, or
/// [`DEFAULT_PRICE`] when it has neither.
pub open spec fn price_or_default(bid: Option<u64>, ask: Option<u64>) -> MidPrice {
    match mid_price(bid, ask) {
        Some(m) => m,
        None => MidPrice { half_units: (2 * DEFAULT_PRICE) as u128 },
    }
}

/// The price a book reports: the mean of its best bid `b` and best ask `a`
/// when it has both (`b + a` half units, which lies between the two), the
/// one it has when it has only one, and [`DEFAULT_PRICE`] when it has none.
pub proof fn lemma_price_or_default(bid: Option<u64>, ask: Option<u64>)
    ensures
        match (bid, ask) {
            (Some(b), Some(a)) => price_or_default(bid, ask).half_units == b + a
                && (b <= a ==> 2 * b <= price_or_default(bid, ask).half_units <= 2 * a),
            (Some(b), None) => price_or_default(bid, ask).half_units == 2 * b,
            (None, Some(a)) => price_or_default(bid, ask).half_units == 2 * a,
            (None, None) => price_or_default(bid, ask).half_units == 2 * DEFAULT_PRICE,
        },
{
}

/// Computes [`price_or_default`].
pub fn price_or_default_of(bid: Option<u64>, ask: Option<u64>) -> (r: MidPrice)
    ensures
        r == price_or_default(bid, ask),
        match (bid, ask) {
            (Some(b), Some(a)) => r.half_units == b + a,
            (Some(b), None) => r.half_units == 2 * b,
            (None, Some(a)) => r.half_units == 2 * a,
            (None, None) => r.half_units == 2 * DEFAULT_PRICE,
        },
{
    proof {
        lemma_price_or_default(bid, ask);
    }
    match mid_price_of(bid, ask) {
        Some(m) => m,
        None => MidPrice { half_units: 2 * DEFAULT_PRICE as u128 },
    }
}

/// The entries of a side: each level's price and the quantity resting there.
pub open spec fn entries<T: Quantified>(side: Seq<(u64, Seq<T>)>) -> Seq<OrderBookEntry> {
    side.map_values(|l: (u64, Seq<T>)| OrderBookEntry { price: l.0, quantity: sum_qty(l.1) as u128 })
}

pub proof fn lemma_sum_qty_fits<T: Quantified>(s: Seq<T>)
    requires
        s.len() <= usize::MAX,
    ensures
        sum_qty(s) <= u128::MAX,
{
    lemma_sum_qty_bound(s);
    let n = s.len();
    assert(n * 0xffff_ffff_ffff_ffff <= 0xffff_ffff_ffff_ffff * 0xffff_ffff_ffff_ffff)
        by (nonlinear_arith)
        requires n <= 0xffff_ffff_ffff_ffff;
}

pub proof fn lemma_sum_qty_take<T: Quantified>(s: Seq<T>, i: int)
    requires
        0 <= i < s.len(),
    ensures
        sum_qty(s.take(i + 1)) == sum_qty(s.take(i)) + s[i].qty(),
        sum_qty(s.take(i + 1)) <= sum_qty(s),
    decreases s.len(),
{
    assert(s.take(i + 1).drop_last() =~= s.take(i));
    if i + 1 < s.len() {
        lemma_sum_qty_take(s.drop_last(), i);
        assert(s.drop_last().take(i + 1) =~= s.take(i + 1));
    } else {
        assert(s.take(i + 1) =~= s);
    }
}

/// The total quantity of a run of orders.
pub fn total_quantity<T: Quantified>(orders: &Vec<T>) -> (r: u128)
    ensures
        r == sum_qty(orders@),
{
    let len = orders.len();
    proof {
        assert(orders@.len() == len);
        lemma_sum_qty_fits(orders@);
    }
    let mut total: u128 = 0;
    let mut i: usize = 0;
    while i < orders.len()
        invariant
            i <= orders.len(),
            total == sum_qty(orders@.take(i as int)),
            sum_qty(orders@) <= u128::MAX,
        decreases orders.len() - i,
    {
        proof {
            lemma_sum_qty_take(orders@, i as int);
        }
        total = total + orders[i].quantity() as u128;
        i = i + 1;
    }
    assert(orders@.take(i as int) =~= orders@);
    total
}

fn count_wide(levels: &Vec<PriceOrders>) -> (n: u128)
    ensures
        n == count_orders(side_of(levels@)),
{
    let ghost side = side_of(levels@);
    let len = levels.len();
    proof {
        assert forall|i: int| 0 <= i < side.len() implies #[trigger] side[i].1.len() <= usize::MAX by {
            assert(side[i] == orders_view(levels@[i]));
            assert(levels@[i].orders.len() == levels@[i].orders@.len());
        }
        lemma_count_orders_bound(side);
        assert(side.len() * usize::MAX <= usize::MAX * usize::MAX) by (nonlinear_arith)
            requires side.len() <= usize::MAX;
        assert(usize::MAX * usize::MAX <= 0xffff_ffff_ffff_ffff * 0xffff_ffff_ffff_ffff) by (nonlinear_arith)
            requires usize::MAX <= 0xffff_ffff_ffff_ffff;
    }
    let mut n: u128 = 0;
    let mut i: usize = 0;
    while i < levels.len()
        invariant
            i <= levels.len(),
            side == side_of(levels@),
            count_orders(side) <= u128::MAX,
            n == count_orders(side.take(i as int)),
        decreases levels.len() - i,
    {
        proof {
            lemma_count_orders_take(side, i as int);
        }
        assert(side[i as int] == orders_view(levels@[i as int]));
        n = n + levels[i].orders.len() as u128;
        i = i + 1;
    }
    assert(side.take(i as int) =~= side);
    n
}

fn count_listed(levels: &Vec<PriceOrders>) -> (n: usize)
    requires
        count_orders(side_of(levels@)) <= usize::MAX,
    ensures
        n == count_orders(side_of(levels@)),
{
    let ghost side = side_of(levels@);
    let mut n: usize = 0;
    let mut i: usize = 0;
    while i < levels.len()
        invariant
            i <= levels.len(),
            side == side_of(levels@),
            count_orders(side) <= usize::MAX,
            n == count_orders(side.take(i as int)),
        decreases levels.len() - i,
    {
        proof {
            lemma_count_orders_take(side, i as int);
        }
        assert(side[i as int] == orders_view(levels@[i as int]));
        n = n + levels[i].orders.len();
        i = i + 1;
    }
    assert(side.take(i as int) =~= side);
    n
}

/// A book for one trading pair, with the trades it has made.
pub struct SimpleOrderBook {
    trading_pair: TradingPair,
    /// Levels in increasing price order; the best bid is the last.
    buy_orders: Vec<PriceOrders>,
    /// Levels in increasing price order; the best ask is the first.
    sell_orders: Vec<PriceOrders>,
    trade_history: Vec<Trade>,
}

impl SimpleOrderBook {
    /// The bids, level by level in increasing price order.
    pub closed spec fn bids(&self) -> Seq<(u64, Seq<Order>)> {
        side_of(self.buy_orders@)
    }

    /// The asks, level by level in increasing price order.
    pub closed spec fn asks(&self) -> Seq<(u64, Seq<Order>)> {
        side_of(self.sell_orders@)
    }

    /// Every trade made so far, oldest first.
    pub closed spec fn history(&self) -> Seq<Trade> {
        self.trade_history@
    }

    /// The pair the book was made for.
    pub closed spec fn pair(&self) -> TradingPair {
        self.trading_pair
    }

    /// Both sides are sorted with no empty level, and every order sits at the
    /// level of the price it was placed at.
    pub closed spec fn wf(&self) -> bool {
        &&& side_ok(self.bids())
        &&& side_ok(self.asks())
        &&& prices_match(self.bids())
        &&& prices_match(self.asks())
    }

    pub proof fn lemma_wf(&self)
        requires
            self.wf(),
        ensures
            side_ok(self.bids()),
            side_ok(self.asks()),
            prices_match(self.bids()),
            prices_match(self.asks()),
    {
    }

    /// An empty book for `trading_pair`, with no trades.
    pub fn new(trading_pair: TradingPair) -> (r: Self)
        ensures
            r.wf(),
            r.pair() == trading_pair,
            r.bids() == Seq::<(u64, Seq<Order>)>::empty(),
            r.asks() == Seq::<(u64, Seq<Order>)>::empty(),
            r.history() == Seq::<Trade>::empty(),
    {
        let r = SimpleOrderBook {
            trading_pair,
            buy_orders: Vec::new(),
            sell_orders: Vec::new(),
            trade_history: Vec::new(),
        };
        assert(r.bids() =~= Seq::<(u64, Seq<Order>)>::empty());
        assert(r.asks() =~= Seq::<(u64, Seq<Order>)>::empty());
        r
    }

    /// Whether the book was made for `pair`.
    pub fn pair_is(&self, pair: &TradingPair) -> (r: bool)
        ensures
            r == (self.pair().base@ == pair.base@ && self.pair().quote@ == pair.quote@),
    {
        self.trading_pair.same_as(pair)
    }

    /// Numbers of bids and of asks resting on the book, counted wide enough
    /// never to overflow.
    pub fn order_counts_wide(&self) -> (n: (u128, u128))
        ensures
            n.0 == count_orders(self.bids()),
            n.1 == count_orders(self.asks()),
    {
        (count_wide(&self.buy_orders), count_wide(&self.sell_orders))
    }

    /// Rests the order at its price on its side, behind the orders already
    /// there; nothing is matched.
    pub fn add_order(&mut self, order: Order)
        requires
            old(self).wf(),
        ensures
            final(self).wf(),
            final(self).pair() == old(self).pair(),
            final(self).history() == old(self).history(),
            order.order_type == OrderType::Buy ==> final(self).bids() == rest_order(old(self).bids(), order.price, order)
                && final(self).asks() == old(self).asks(),
            order.order_type == OrderType::Sell ==> final(self).asks() == rest_order(old(self).asks(), order.price, order)
                && final(self).bids() == old(self).bids(),
            count_orders(final(self).bids()) + count_orders(final(self).asks())
                == count_orders(old(self).bids()) + count_orders(old(self).asks()) + 1,
    {
        proof {
            lemma_rest_order_qty(self.bids(), order.price, order);
            lemma_rest_order_qty(self.asks(), order.price, order);
            lemma_rest_order_priced(self.bids(), order.price, order);
            lemma_rest_order_priced(self.asks(), order.price, order);
        }
        match order.order_type {
            OrderType::Buy => rest_at(&mut self.buy_orders, order.price, order),
            OrderType::Sell => rest_at(&mut self.sell_orders, order.price, order),
        }
    }

    /// Matches the book as [`match_book`] says. Returns the trades made, in
    /// order, numbered from 1 for this call and priced at the ask of their
    /// crossing; they are also appended to the history.
    pub fn match_orders(&mut self) -> (trades: Vec<Trade>)
        requires
            old(self).wf(),
            count_orders(old(self).bids()) + count_orders(old(self).asks()) <= u64::MAX,
        ensures
            final(self).wf(),
            final(self).pair() == old(self).pair(),
            final(self).bids() == match_book(old(self).bids(), old(self).asks()).0,
            final(self).asks() == match_book(old(self).bids(), old(self).asks()).1,
            trades@.len() == match_book(old(self).bids(), old(self).asks()).2.len(),
            forall|k: int| 0 <= k < trades@.len() ==> {
                &&& trade_terms(#[trigger] trades@[k]) == match_book(old(self).bids(), old(self).asks()).2[k]
                &&& trades@[k].id == k + 1
                &&& trades@[k].trading_pair == old(self).pair()
            },
            final(self).history() == old(self).history() + trades@,
    {
        let ghost all = match_book(self.bids(), self.asks());
        let ghost total = count_orders(self.bids()) + count_orders(self.asks());
        let ghost mut terms: Seq<(u64, u64, u64, u64)> = Seq::empty();
        let mut trades: Vec<Trade> = Vec::new();
        while self.buy_orders.len() > 0 && self.sell_orders.len() > 0
            && self.buy_orders[self.buy_orders.len() - 1].price >= self.sell_orders[0].price
            invariant
                self.wf(),
                self.pair() == old(self).pair(),
                self.history() == old(self).history(),
                total <= u64::MAX,
                trades.len() + count_orders(self.bids()) + count_orders(self.asks()) <= total,
                all == ({
                    let m = match_book(self.bids(), self.asks());
                    (m.0, m.1, terms + m.2)
                }),
                trades@.len() == terms.len(),
                forall|k: int| 0 <= k < trades@.len() ==> {
                    &&& trade_terms(#[trigger] trades@[k]) == terms[k]
                    &&& trades@[k].id == k + 1
                    &&& trades@[k].trading_pair == old(self).pair()
                },
            decreases self.buy_orders.len() + self.sell_orders.len(),
        {
            let ghost bids = self.bids();
            let ghost asks = self.asks();
            let ghost tb = trades@;
            let buy_price = self.buy_orders[self.buy_orders.len() - 1].price;
            let sell_price = self.sell_orders[0].price;
            let mut buy_level = match self.buy_orders.pop() {
                Some(l) => l,
                None => PriceOrders { price: buy_price, orders: Vec::new() },
            };
            let mut sell_level = self.sell_orders.remove(0);
            proof {
                assert(bids.last() == orders_view(buy_level));
                assert(asks[0] == orders_view(sell_level));
                assert(self.bids() =~= bids.drop_last());
                assert(self.asks() =~= asks.drop_first());
                assert(count_orders(bids) == count_orders(bids.drop_last()) + bids.last().1.len());
                lemma_count_orders_first(asks);
                lemma_cross(bids.last().1, asks[0].1);
            }
            cross_levels(&self.trading_pair, &mut buy_level.orders, &mut sell_level.orders, sell_price, &mut trades);
            let ghost c = cross(bids.last().1, asks[0].1);
            if buy_level.orders.len() > 0 {
                self.buy_orders.push(buy_level);
                proof {
                    assert(self.bids() =~= bids.update(bids.len() - 1, (bids.last().0, c.0)));
                    lemma_side_update(bids, bids.len() - 1, (bids.last().0, c.0));
                }
            }
            if sell_level.orders.len() > 0 {
                self.sell_orders.insert(0, sell_level);
                proof {
                    assert(self.asks() =~= asks.update(0, (asks[0].0, c.1)));
                    lemma_side_update(asks, 0, (asks[0].0, c.1));
                }
            }
            proof {
                lemma_match_book(bids, asks);
                let bids2 = if c.0.len() == 0 { bids.drop_last() } else { bids.update(bids.len() - 1, (bids.last().0, c.0)) };
                let asks2 = if c.1.len() == 0 { asks.drop_first() } else { asks.update(0, (asks[0].0, c.1)) };
                assert(self.bids() == bids2);
                assert(self.asks() == asks2);
                assert(all_priced(bids[bids.len() - 1].1, bids[bids.len() - 1].0));
                assert(all_priced(asks[0].1, asks[0].0));
                lemma_cross_priced(bids.last().1, asks[0].1, bids.last().0, asks[0].0);
                assert forall|k: int| 0 <= k < bids2.len() implies all_priced(#[trigger] bids2[k].1, bids2[k].0) by {
                    if k < bids.len() - 1 {
                        assert(bids2[k] == bids[k]);
                    }
                }
                assert forall|k: int| 0 <= k < asks2.len() implies all_priced(#[trigger] asks2[k].1, asks2[k].0) by {
                    if c.1.len() == 0 {
                        assert(asks2[k] == asks[k + 1]);
                    } else if k > 0 {
                        assert(asks2[k] == asks[k]);
                    }
                }
                assert(side_ok(bids2) && side_ok(asks2)) by {
                    assert forall|i: int| 0 <= i < bids2.len() implies #[trigger] bids2[i].1.len() > 0 by {
                        if i < bids.len() - 1 {
                            assert(bids2[i] == bids[i]);
                        }
                    }
                    assert forall|i: int| 0 <= i < asks2.len() implies #[trigger] asks2[i].1.len() > 0 by {
                        if c.1.len() == 0 {
                            assert(asks2[i] == asks[i + 1]);
                        } else if i > 0 {
                            assert(asks2[i] == asks[i]);
                        }
                    }
                    if c.1.len() == 0 {
                        assert forall|a: int, b: int| 0 <= a < b < asks2.len() implies asks2[a].0 < asks2[b].0 by {
                            assert(asks2[a] == asks[a + 1]);
                            assert(asks2[b] == asks[b + 1]);
                        }
                    }
                }
                let new_terms = priced(c.2, sell_price);
                assert forall|k: int| 0 <= k < trades@.len() implies {
                    &&& trade_terms(#[trigger] trades@[k]) == (terms + new_terms)[k]
                    &&& trades@[k].id == k + 1
                    &&& trades@[k].trading_pair == old(self).pair()
                } by {
                    if k < tb.len() {
                        assert(trades@[k] == trades@.subrange(0, tb.len() as int)[k]);
                    } else {
                        let kk = k - tb.len();
                        assert(trades@[tb.len() + kk] == trades@[k]);
                    }
                }
                assert(terms + priced(c.2, asks[0].0) + match_book(bids2, asks2).2 =~= terms + (priced(c.2, asks[0].0) + match_book(bids2, asks2).2));
                terms = terms + new_terms;
            }
        }
        proof {
            assert(terms + Seq::<(u64, u64, u64, u64)>::empty() =~= terms);
        }
        let mut k: usize = 0;
        while k < trades.len()
            invariant
                k <= trades.len(),
                self.history() == old(self).history() + trades@.take(k as int),
                self.wf(),
                self.pair() == old(self).pair(),
                self.bids() == all.0,
                self.asks() == all.1,
            decreases trades.len() - k,
        {
            self.trade_history.push(trades[k].clone());
            assert(trades@.take(k + 1) =~= trades@.take(k as int).push(trades@[k as int]));
            k = k + 1;
        }
        assert(trades@.take(k as int) =~= trades@);
        trades
    }

    /// The mid price of the best bid and best ask, or [`DEFAULT_PRICE`] when
    /// the book is empty; always a price.
    pub fn get_current_price(&self) -> (r: Option<MidPrice>)
        ensures
            r == Some(price_or_default(highest_price(self.bids()), lowest_price(self.asks()))),
    {
        let bid = if self.buy_orders.len() > 0 {
            Some(self.buy_orders[self.buy_orders.len() - 1].price)
        } else {
            None
        };
        let ask = if self.sell_orders.len() > 0 {
            Some(self.sell_orders[0].price)
        } else {
            None
        };
        Some(price_or_default_of(bid, ask))
    }

    /// The levels of the book with the quantity resting at each: bids from
    /// the highest price down, asks from the lowest price up.
    pub fn get_order_book(&self) -> (r: (Vec<OrderBookEntry>, Vec<OrderBookEntry>))
        ensures
            r.0@ == entries(self.bids()).reverse(),
            r.1@ == entries(self.asks()),
    {
        let mut bids: Vec<OrderBookEntry> = Vec::new();
        let mut i: usize = self.buy_orders.len();
        while i > 0
            invariant
                i <= self.buy_orders.len(),
                bids@ == entries(self.bids()).subrange(i as int, self.buy_orders.len() as int).reverse(),
            decreases i,
        {
            i = i - 1;
            let quantity = total_quantity(&self.buy_orders[i].orders);
            bids.push(OrderBookEntry { price: self.buy_orders[i].price, quantity });
            assert(entries(self.bids()).subrange(i as int, self.buy_orders.len() as int).reverse() =~= entries(
                self.bids(),
            ).subrange(i + 1, self.buy_orders.len() as int).reverse().push(entries(self.bids())[i as int]));
        }
        let mut asks: Vec<OrderBookEntry> = Vec::new();
        let mut j: usize = 0;
        while j < self.sell_orders.len()
            invariant
                j <= self.sell_orders.len(),
                asks@ == entries(self.asks()).take(j as int),
            decreases self.sell_orders.len() - j,
        {
            let quantity = total_quantity(&self.sell_orders[j].orders);
            asks.push(OrderBookEntry { price: self.sell_orders[j].price, quantity });
            assert(entries(self.asks()).take(j + 1) =~= entries(self.asks()).take(j as int).push(entries(self.asks())[j as int]));
            j = j + 1;
        }
        assert(entries(self.asks()).take(j as int) =~= entries(self.asks()));
        assert(entries(self.bids()).subrange(0, self.buy_orders.len() as int) =~= entries(self.bids()));
        (bids, asks)
    }

    /// Number of orders resting on the book.
    pub fn get_active_orders_count(&self) -> (n: usize)
        requires
            count_orders(self.bids()) + count_orders(self.asks()) <= usize::MAX,
        ensures
            n == count_orders(self.bids()) + count_orders(self.asks()),
    {
        let buy_count = count_listed(&self.buy_orders);
        let sell_count = count_listed(&self.sell_orders);
        buy_count + sell_count
    }

    /// Every trade made so far, oldest first.
    pub fn get_trade_history(&self) -> (r: Vec<Trade>)
        ensures
            r@ == self.history(),
    {
        let mut result = Vec::new();
        let mut k: usize = 0;
        while k < self.trade_history.len()
            invariant
                k <= self.trade_history.len(),
                result@ == self.trade_history@.take(k as int),
            decreases self.trade_history.len() - k,
        {
            result.push(self.trade_history[k].clone());
            assert(self.trade_history@.take(k + 1) =~= self.trade_history@.take(k as int).push(self.trade_history@[k as int]));
            k = k + 1;
        }
        assert(self.trade_history@.take(k as int) =~= self.trade_history@);
        result
    }
}

} // verus!
