//! An engine book that matches as orders arrive, best price first: a buy
//! walks the asks from the lowest price up, a sell walks the bids from the
//! highest price down, filling at every level whose price the order accepts.
//! Levels stay in the book when emptied.

use vstd::prelude::*;
use crate::engine::api::OrderBookEntry;
use crate::engine::models::{now, Order, OrderType, Trade, TradingPair};
use crate::engine::order_book::{entries, price_or_default, price_or_default_of};
use crate::level::{all_positive, all_priced, fill, lemma_fill, lemma_fill_priced, PriceLevel, Quantified};
use crate::queue::wrapped_sum;
use crate::models::MidPrice;
use crate::side::{
    count_orders, count_resting, count_resting_wide, highest_price, lemma_rest_order_priced,
    lemma_rest_order_qty, lemma_side_qty_first, levels_positive, levels_wf, lowest_price,
    prices_match, rest_at, rest_order, side_qty, side_view, sorted_prices,
};

verus! {

broadcast use vstd::std_specs::vecdeque::group_vec_dequeue_axioms;

/// The order accepts trading at `price`: a buy at or below its limit, a sell
/// at or above it.
pub open spec fn accepts(price: u64, limit: u64, buying: bool) -> bool {
    if buying {
        price <= limit
    } else {
        price >= limit
    }
}

/// The fills of `qty` against `orders`, oldest first, as [`fill`] makes
/// them: for each order touched, its id and the quantity it gave up.
pub open spec fn fill_trace(orders: Seq<Order>, qty: nat) -> Seq<(u64, u64)>
    decreases orders.len(),
{
    if qty == 0 || orders.len() == 0 {
        Seq::empty()
    } else if orders[0].quantity <= qty {
        seq![(orders[0].id, orders[0].quantity)] + fill_trace(orders.drop_first(), (qty - orders[0].quantity) as nat)
    } else {
        seq![(orders[0].id, qty as u64)]
    }
}

pub proof fn lemma_fill_trace(orders: Seq<Order>, qty: nat)
    requires
        all_positive(orders),
    ensures
        fill_trace(orders, qty).len() == 0 <==> fill(orders, qty).1 == 0,
    decreases orders.len(),
{
    if qty == 0 || orders.len() == 0 {
    } else {
        assert(orders[0].qty() > 0);
        if orders[0].quantity <= qty {
            lemma_fill(orders.drop_first(), (qty - orders[0].quantity) as nat);
        }
    }
}

/// Walks a side from its lowest price up and fills `qty` at every level whose
/// price the order accepts, oldest order first, until nothing is left to
/// fill. Levels stay, emptied or not. Gives the side after, what is left
/// unfilled, and every fill as the level's price, the resting order's id and
/// the quantity.
pub open spec fn fill_each(side: Seq<(u64, Seq<Order>)>, qty: nat, limit: u64, buying: bool) -> (
    Seq<(u64, Seq<Order>)>,
    nat,
    Seq<(u64, u64, u64)>,
)
    decreases side.len(),
{
    if side.len() == 0 || qty == 0 {
        (side, qty, Seq::empty())
    } else {
        let head = side[0];
        let f = fill(head.1, qty);
        let ok = accepts(head.0, limit, buying);
        let head2 = if ok { (head.0, f.0) } else { head };
        let q2 = if ok { (qty - f.1) as nat } else { qty };
        let t = if ok { fill_trace(head.1, qty).map_values(|x: (u64, u64)| (head.0, x.0, x.1)) } else { Seq::empty() };
        let r = fill_each(side.drop_first(), q2, limit, buying);
        (seq![head2] + r.0, r.1, t + r.2)
    }
}

/// Walks the bids from the highest price down and fills a sell of `qty` at
/// every level whose price is at or above its limit `limit`, oldest order
/// first, until nothing is left to fill. Levels stay, emptied or not. Gives
/// the side after, what is left unfilled, and every fill as the level's
/// price, the resting order's id and the quantity.
pub open spec fn fill_each_down(side: Seq<(u64, Seq<Order>)>, qty: nat, limit: u64) -> (
    Seq<(u64, Seq<Order>)>,
    nat,
    Seq<(u64, u64, u64)>,
)
    decreases side.len(),
{
    if side.len() == 0 || qty == 0 {
        (side, qty, Seq::empty())
    } else {
        let top = side.last();
        let f = fill(top.1, qty);
        let ok = accepts(top.0, limit, false);
        let top2 = if ok { (top.0, f.0) } else { top };
        let q2 = if ok { (qty - f.1) as nat } else { qty };
        let t = if ok { fill_trace(top.1, qty).map_values(|x: (u64, u64)| (top.0, x.0, x.1)) } else { Seq::empty() };
        let r = fill_each_down(side.drop_last(), q2, limit);
        (r.0.push(top2), r.1, t + r.2)
    }
}

/// Walking up keeps price priority: every level keeps its place and price,
/// a level the order does not accept is left as it was, and a level is
/// touched only when every cheaper level the order accepts has been emptied.
pub proof fn lemma_fill_each_priority(side: Seq<(u64, Seq<Order>)>, qty: nat, limit: u64, buying: bool)
    requires
        levels_positive(side),
    ensures
        ({
            let r = fill_each(side, qty, limit, buying).0;
            &&& r.len() == side.len()
            &&& forall|i: int| 0 <= i < r.len() ==> (#[trigger] r[i]).0 == side[i].0
            &&& forall|i: int| 0 <= i < r.len() && !accepts(side[i].0, limit, buying) ==> #[trigger] r[i] == side[i]
            &&& forall|i: int, j: int| 0 <= i < j < r.len() && r[j] != side[j] && accepts(side[i].0, limit, buying)
                ==> #[trigger] r[i].1.len() == 0 && #[trigger] r[j].0 == side[j].0
        }),
    decreases side.len(),
{
    if side.len() == 0 || qty == 0 {
    } else {
        let head = side[0];
        assert(all_positive(head.1));
        let f = fill(head.1, qty);
        let ok = accepts(head.0, limit, buying);
        let head2 = if ok { (head.0, f.0) } else { head };
        let q2 = if ok { (qty - f.1) as nat } else { qty };
        lemma_fill(head.1, qty);
        let rest = side.drop_first();
        assert(levels_positive(rest)) by {
            assert forall|i: int| 0 <= i < rest.len() implies all_positive(#[trigger] rest[i].1) by {
                assert(rest[i] == side[i + 1]);
            }
        }
        lemma_fill_each_priority(rest, q2, limit, buying);
        let rr = fill_each(rest, q2, limit, buying).0;
        let r = seq![head2] + rr;
        assert forall|i: int| 0 <= i < r.len() implies (#[trigger] r[i]).0 == side[i].0 by {
            if i > 0 {
                assert(r[i] == rr[i - 1]);
                assert(rest[i - 1] == side[i]);
            }
        }
        assert forall|i: int| 0 <= i < r.len() && !accepts(side[i].0, limit, buying) implies #[trigger] r[i] == side[i] by {
            if i > 0 {
                assert(r[i] == rr[i - 1]);
                assert(rest[i - 1] == side[i]);
            }
        }
        if q2 == 0 {
            assert(rr == rest);
        }
        assert forall|i: int, j: int| 0 <= i < j < r.len() && r[j] != side[j] && accepts(side[i].0, limit, buying)
            implies #[trigger] r[i].1.len() == 0 && #[trigger] r[j].0 == side[j].0 by {
            assert(r[j] == rr[j - 1]);
            assert(rest[j - 1] == side[j]);
            if i > 0 {
                assert(r[i] == rr[i - 1]);
                assert(rest[i - 1] == side[i]);
            } else {
                assert(q2 > 0);
            }
        }
    }
}

/// Walking down keeps price priority: every level keeps its place and
/// price, a level priced below the sell's limit is left as it was, and a
/// level is touched only when every dearer level at or above the limit has
/// been emptied.
pub proof fn lemma_fill_each_down_priority(side: Seq<(u64, Seq<Order>)>, qty: nat, limit: u64)
    requires
        levels_positive(side),
    ensures
        ({
            let r = fill_each_down(side, qty, limit).0;
            &&& r.len() == side.len()
            &&& forall|i: int| 0 <= i < r.len() ==> (#[trigger] r[i]).0 == side[i].0
            &&& forall|i: int| 0 <= i < r.len() && side[i].0 < limit ==> #[trigger] r[i] == side[i]
            &&& forall|i: int, j: int| 0 <= j < i < r.len() && r[j] != side[j] && side[i].0 >= limit
                ==> #[trigger] r[i].1.len() == 0 && #[trigger] r[j].0 == side[j].0
        }),
    decreases side.len(),
{
    if side.len() == 0 || qty == 0 {
    } else {
        let n = side.len() - 1;
        let top = side.last();
        assert(all_positive(side[n].1));
        let f = fill(top.1, qty);
        let ok = accepts(top.0, limit, false);
        let top2 = if ok { (top.0, f.0) } else { top };
        let q2 = if ok { (qty - f.1) as nat } else { qty };
        lemma_fill(top.1, qty);
        let rest = side.drop_last();
        assert(levels_positive(rest)) by {
            assert forall|i: int| 0 <= i < rest.len() implies all_positive(#[trigger] rest[i].1) by {
                assert(rest[i] == side[i]);
            }
        }
        lemma_fill_each_down_priority(rest, q2, limit);
        let rr = fill_each_down(rest, q2, limit).0;
        let r = rr.push(top2);
        assert forall|i: int| 0 <= i < r.len() implies (#[trigger] r[i]).0 == side[i].0 by {
            if i < n {
                assert(r[i] == rr[i]);
                assert(rest[i] == side[i]);
            }
        }
        assert forall|i: int| 0 <= i < r.len() && side[i].0 < limit implies #[trigger] r[i] == side[i] by {
            if i < n {
                assert(r[i] == rr[i]);
                assert(rest[i] == side[i]);
            }
        }
        if q2 == 0 {
            assert(rr == rest);
        }
        assert forall|i: int, j: int| 0 <= j < i < r.len() && r[j] != side[j] && side[i].0 >= limit
            implies #[trigger] r[i].1.len() == 0 && #[trigger] r[j].0 == side[j].0 by {
            assert(r[j] == rr[j]);
            assert(rest[j] == side[j]);
            if i < n {
                assert(r[i] == rr[i]);
                assert(rest[i] == side[i]);
            } else {
                assert(q2 > 0);
            }
        }
    }
}

/// `t` is the trade of the fill `f` (price, resting id, quantity) of the
/// arriving `order` against a resting order, numbered `id`.
pub open spec fn trade_made(t: Trade, order: Order, f: (u64, u64, u64), id: u64, pair: TradingPair) -> bool {
    &&& t.id == id
    &&& t.trading_pair == pair
    &&& t.price == f.0
    &&& t.quantity == f.2
    &&& t.buy_order_id == if order.order_type == OrderType::Buy { order.id } else { f.1 }
    &&& t.sell_order_id == if order.order_type == OrderType::Buy { f.1 } else { order.id }
}

/// The book after `order` arrives: a buy fills at every acceptable ask level
/// from the lowest up as [`fill_each`] says, a sell at every acceptable bid
/// level from the highest down as [`fill_each_down`] says, and what is left
/// of the order rests at its price on its own side.
pub open spec fn book_after(
    bids: Seq<(u64, Seq<Order>)>,
    asks: Seq<(u64, Seq<Order>)>,
    order: Order,
) -> (Seq<(u64, Seq<Order>)>, Seq<(u64, Seq<Order>)>) {
    match order.order_type {
        OrderType::Buy => {
            let r = fill_each(asks, order.quantity as nat, order.price, true);
            (
                if r.1 > 0 {
                    rest_order(bids, order.price, Order { quantity: r.1 as u64, ..order })
                } else {
                    bids
                },
                r.0,
            )
        },
        OrderType::Sell => {
            let r = fill_each_down(bids, order.quantity as nat, order.price);
            (
                r.0,
                if r.1 > 0 {
                    rest_order(asks, order.price, Order { quantity: r.1 as u64, ..order })
                } else {
                    asks
                },
            )
        },
    }
}

/// The fills an arriving order makes, as [`fill_each`] or [`fill_each_down`]
/// gives them.
pub open spec fn fills_of(
    bids: Seq<(u64, Seq<Order>)>,
    asks: Seq<(u64, Seq<Order>)>,
    order: Order,
) -> Seq<(u64, u64, u64)> {
    match order.order_type {
        OrderType::Buy => fill_each(asks, order.quantity as nat, order.price, true).2,
        OrderType::Sell => fill_each_down(bids, order.quantity as nat, order.price).2,
    }
}

/// `trades[from..]` are the trades of `fills` for `order`, numbered on from
/// `id0 + from` by a counter that wraps around.
pub open spec fn trades_made(trades: Seq<Trade>, from: int, order: Order, fills: Seq<(u64, u64, u64)>, id0: u64, pair: TradingPair) -> bool {
    &&& trades.len() == from + fills.len()
    &&& forall|k: int| 0 <= k < fills.len() ==> trade_made(#[trigger] trades[from + k], order, fills[k], wrapped_sum(id0 + from + k), pair)
}

/// Total quantity of a run of fills (price, resting id, quantity).
pub open spec fn fills_qty(fills: Seq<(u64, u64, u64)>) -> nat
    decreases fills.len(),
{
    if fills.len() == 0 {
        0
    } else {
        fills[0].2 as nat + fills_qty(fills.drop_first())
    }
}

/// Total quantity of a run of trades.
pub open spec fn trades_qty(trades: Seq<Trade>) -> nat
    decreases trades.len(),
{
    if trades.len() == 0 {
        0
    } else {
        trades[0].quantity as nat + trades_qty(trades.drop_first())
    }
}

pub proof fn lemma_fills_qty_concat(a: Seq<(u64, u64, u64)>, b: Seq<(u64, u64, u64)>)
    ensures
        fills_qty(a + b) == fills_qty(a) + fills_qty(b),
    decreases a.len(),
{
    if a.len() == 0 {
        assert(a + b =~= b);
    } else {
        lemma_fills_qty_concat(a.drop_first(), b);
        assert((a + b).drop_first() =~= a.drop_first() + b);
    }
}

/// The fills recorded at one level carry what filling that level took.
proof fn lemma_fill_trace_qty(orders: Seq<Order>, qty: nat, price: u64)
    requires
        all_positive(orders),
    ensures
        fills_qty(fill_trace(orders, qty).map_values(|x: (u64, u64)| (price, x.0, x.1))) == fill(orders, qty).1,
    decreases orders.len(),
{
    let t = fill_trace(orders, qty).map_values(|x: (u64, u64)| (price, x.0, x.1));
    if qty == 0 || orders.len() == 0 {
        assert(t.len() == 0);
    } else if orders[0].quantity <= qty {
        assert(t[0].2 == orders[0].quantity);
        let rest = orders.drop_first();
        assert(all_positive(rest)) by {
            assert forall|i: int| 0 <= i < rest.len() implies #[trigger] rest[i].qty() > 0 by {
                assert(rest[i] == orders[i + 1]);
            }
        }
        lemma_fill_trace_qty(rest, (qty - orders[0].quantity) as nat, price);
        let q2 = (qty - orders[0].quantity) as nat;
        let t2 = fill_trace(rest, q2).map_values(|x: (u64, u64)| (price, x.0, x.1));
        assert(fill_trace(orders, qty) =~= seq![(orders[0].id, orders[0].quantity)] + fill_trace(rest, q2));
        assert(t.drop_first() =~= t2);
        assert(fills_qty(t) == orders[0].quantity + fills_qty(t2));
        assert(fill(orders, qty).1 == fill(rest, q2).1 + orders[0].quantity);
    } else {
        assert(t.len() == 1);
        assert(t[0].2 == qty);
        assert(t.drop_first().len() == 0);
        assert(fills_qty(t.drop_first()) == 0);
        assert(fills_qty(t) == qty);
        assert(fill(orders, qty).1 == qty);
    }
}

/// Filling a side takes from it exactly what the fills carry, and the fills
/// carry exactly what was filled of the order.
proof fn lemma_fill_each_qty(side: Seq<(u64, Seq<Order>)>, qty: nat, limit: u64, buying: bool)
    requires
        levels_positive(side),
    ensures
        ({
            let r = fill_each(side, qty, limit, buying);
            &&& fills_qty(r.2) + r.1 == qty
            &&& side_qty(r.0) + fills_qty(r.2) == side_qty(side)
        }),
    decreases side.len(),
{
    if side.len() == 0 || qty == 0 {
    } else {
        let head = side[0];
        assert(all_positive(head.1));
        let f = fill(head.1, qty);
        let ok = accepts(head.0, limit, buying);
        let head2 = if ok { (head.0, f.0) } else { head };
        let q2 = if ok { (qty - f.1) as nat } else { qty };
        let t = if ok { fill_trace(head.1, qty).map_values(|x: (u64, u64)| (head.0, x.0, x.1)) } else { Seq::empty() };
        lemma_fill(head.1, qty);
        lemma_fill_trace_qty(head.1, qty, head.0);
        let rest = side.drop_first();
        assert(levels_positive(rest)) by {
            assert forall|i: int| 0 <= i < rest.len() implies all_positive(#[trigger] rest[i].1) by {
                assert(rest[i] == side[i + 1]);
            }
        }
        lemma_fill_each_qty(rest, q2, limit, buying);
        let r = fill_each(rest, q2, limit, buying);
        lemma_fills_qty_concat(t, r.2);
        lemma_side_qty_first(side);
        lemma_side_qty_first(seq![head2] + r.0);
        assert((seq![head2] + r.0).drop_first() =~= r.0);
    }
}

/// Filling the bids from the highest down takes from them exactly what the
/// fills carry, and the fills carry exactly what was filled of the sell.
proof fn lemma_fill_each_down_qty(side: Seq<(u64, Seq<Order>)>, qty: nat, limit: u64)
    requires
        levels_positive(side),
    ensures
        ({
            let r = fill_each_down(side, qty, limit);
            &&& fills_qty(r.2) + r.1 == qty
            &&& side_qty(r.0) + fills_qty(r.2) == side_qty(side)
        }),
    decreases side.len(),
{
    if side.len() == 0 || qty == 0 {
    } else {
        let top = side.last();
        assert(all_positive(top.1));
        let f = fill(top.1, qty);
        let ok = accepts(top.0, limit, false);
        let top2 = if ok { (top.0, f.0) } else { top };
        let q2 = if ok { (qty - f.1) as nat } else { qty };
        let t = if ok { fill_trace(top.1, qty).map_values(|x: (u64, u64)| (top.0, x.0, x.1)) } else { Seq::empty() };
        lemma_fill(top.1, qty);
        lemma_fill_trace_qty(top.1, qty, top.0);
        let rest = side.drop_last();
        assert(levels_positive(rest)) by {
            assert forall|i: int| 0 <= i < rest.len() implies all_positive(#[trigger] rest[i].1) by {
                assert(rest[i] == side[i]);
            }
        }
        lemma_fill_each_down_qty(rest, q2, limit);
        let r = fill_each_down(rest, q2, limit);
        lemma_fills_qty_concat(t, r.2);
        assert(r.0.push(top2).drop_last() =~= r.0);
    }
}

/// Trades that each carry the quantity of the fill at their position carry,
/// together, what the fills carry.
pub proof fn lemma_trades_qty(trades: Seq<Trade>, fills: Seq<(u64, u64, u64)>)
    requires
        trades.len() == fills.len(),
        forall|k: int| 0 <= k < trades.len() ==> #[trigger] trades[k].quantity == fills[k].2,
    ensures
        trades_qty(trades) == fills_qty(fills),
    decreases fills.len(),
{
    if fills.len() > 0 {
        let (t2, f2) = (trades.drop_first(), fills.drop_first());
        assert forall|k: int| 0 <= k < t2.len() implies #[trigger] t2[k].quantity == f2[k].2 by {
            assert(trades[k + 1].quantity == fills[k + 1].2);
        }
        assert(trades[0].quantity == fills[0].2);
        lemma_trades_qty(t2, f2);
    }
}

/// Quantity is kept when an order arrives: its trades carry exactly what
/// leaves the opposite side, no more than the order asked for, and what does
/// not trade rests on the order's own side.
pub proof fn lemma_trades_keep_quantity(
    bids: Seq<(u64, Seq<Order>)>,
    asks: Seq<(u64, Seq<Order>)>,
    order: Order,
    trades: Seq<Trade>,
    id0: u64,
    pair: TradingPair,
)
    requires
        sorted_prices(bids),
        sorted_prices(asks),
        levels_positive(bids),
        levels_positive(asks),
        trades_made(trades, 0, order, fills_of(bids, asks, order), id0, pair),
    ensures
        ({
            let (b, a) = book_after(bids, asks, order);
            let t = trades_qty(trades);
            &&& t <= order.quantity
            &&& order.order_type == OrderType::Buy ==> side_qty(a) + t == side_qty(asks)
                && side_qty(b) + t == side_qty(bids) + order.quantity
            &&& order.order_type == OrderType::Sell ==> side_qty(b) + t == side_qty(bids)
                && side_qty(a) + t == side_qty(asks) + order.quantity
        }),
{
    let fills = fills_of(bids, asks, order);
    assert forall|k: int| 0 <= k < trades.len() implies #[trigger] trades[k].quantity == fills[k].2 by {
        assert(trade_made(trades[0 + k], order, fills[k], wrapped_sum(id0 + 0 + k), pair));
    }
    lemma_trades_qty(trades, fills);
    match order.order_type {
        OrderType::Buy => {
            lemma_fill_each_qty(asks, order.quantity as nat, order.price, true);
            let r = fill_each(asks, order.quantity as nat, order.price, true);
            if r.1 > 0 {
                lemma_rest_order_qty(bids, order.price, Order { quantity: r.1 as u64, ..order });
            }
        },
        OrderType::Sell => {
            lemma_fill_each_down_qty(bids, order.quantity as nat, order.price);
            let r = fill_each_down(bids, order.quantity as nat, order.price);
            if r.1 > 0 {
                lemma_rest_order_qty(asks, order.price, Order { quantity: r.1 as u64, ..order });
            }
        },
    }
}

/// Fills at a level unless its total is zero, recording a trade for each
/// resting order that gives something up; `None` when nothing was filled.
fn try_match(
    level: &mut PriceLevel<Order>,
    quantity: u64,
    incoming: &Order,
    pair: &TradingPair,
    next_trade_id: &mut u64,
    trades: &mut Vec<Trade>,
    ghost_id0: Ghost<u64>,
) -> (r: Option<u64>)
    requires
        old(level).wf(),
        *old(next_trade_id) == wrapped_sum(ghost_id0@ + old(trades)@.len()),
    ensures
        final(level).wf(),
        final(level).price == old(level).price,
        final(level).orders@ == fill(old(level).orders@, quantity as nat).0,
        r is Some <==> fill(old(level).orders@, quantity as nat).1 > 0,
        r matches Some(m) ==> m == fill(old(level).orders@, quantity as nat).1,
        final(trades)@.subrange(0, old(trades)@.len() as int) == old(trades)@,
        trades_made(
            final(trades)@,
            old(trades)@.len() as int,
            *incoming,
            fill_trace(old(level).orders@, quantity as nat).map_values(|x: (u64, u64)| (old(level).price, x.0, x.1)),
            ghost_id0@,
            *pair,
        ),
        *final(next_trade_id) == wrapped_sum(ghost_id0@ + final(trades)@.len()),
{
    let ghost o0 = level.orders@;
    let ghost from = trades@.len() as int;
    let ghost price = level.price;
    proof {
        lemma_fill(level.orders@, quantity as nat);
        lemma_fill_trace(level.orders@, quantity as nat);
    }
    if level.total_quantity == 0 {
        proof {
            if level.orders@.len() > 0 {
                crate::level::lemma_sum_qty_first(level.orders@);
                assert(level.orders@[0].qty() > 0);
            }
            assert(trades@.subrange(0, from) =~= trades@);
        }
        return None;
    }
    let mut matched_quantity: u64 = 0;
    let mut remaining: u64 = quantity;
    let ghost mut made: Seq<(u64, u64)> = Seq::empty();
    proof {
        assert(made + fill_trace(o0, quantity as nat) =~= fill_trace(o0, quantity as nat));
        assert(trades@.subrange(0, from) =~= trades@);
    }
    while remaining > 0 && level.orders.len() > 0
        invariant
            level.wf(),
            level.price == price,
            from == old(trades)@.len(),
            matched_quantity + remaining == quantity,
            fill(o0, quantity as nat) == (
                fill(level.orders@, remaining as nat).0,
                (matched_quantity + fill(level.orders@, remaining as nat).1) as nat,
            ),
            fill_trace(o0, quantity as nat) == made + fill_trace(level.orders@, remaining as nat),
            trades@.subrange(0, from) == old(trades)@,
            trades_made(trades@, from, *incoming, made.map_values(|x: (u64, u64)| (price, x.0, x.1)), ghost_id0@, *pair),
            *next_trade_id == wrapped_sum(ghost_id0@ + trades@.len()),
        decreases level.orders@.len() + remaining,
    {
        let ghost before = level.orders@;
        let front = level.orders[0].quantity;
        let resting_id = level.orders[0].id;
        let match_qty = if remaining < front { remaining } else { front };
        proof {
            crate::level::lemma_sum_qty_first(before);
            crate::queue::lemma_wrapped_sum_add(*next_trade_id, 1, ghost_id0@ + trades@.len());
        }
        let id = *next_trade_id;
        *next_trade_id = next_trade_id.wrapping_add(1);
        let (buy_order_id, sell_order_id) = match incoming.order_type {
            OrderType::Buy => (incoming.id, resting_id),
            OrderType::Sell => (resting_id, incoming.id),
        };
        let ghost tb = trades@;
        trades.push(Trade {
            id,
            trading_pair: pair.clone(),
            buy_order_id,
            sell_order_id,
            price: level.price,
            quantity: match_qty,
            timestamp: now(),
        });
        matched_quantity = matched_quantity + match_qty;
        remaining = remaining - match_qty;
        level.total_quantity = level.total_quantity - match_qty as u128;
        if front - match_qty == 0 {
            let _filled = level.orders.pop_front();
            assert(level.orders@ =~= before.drop_first());
        } else {
            if let Some(mut first) = level.orders.pop_front() {
                first.set_quantity(front - match_qty);
                level.orders.push_front(first);
            }
            proof {
                before[0].lemma_with_qty((front - match_qty) as u64);
                crate::level::lemma_sum_qty_update_first(before, before[0].with_qty((front - match_qty) as u64));
                assert(level.orders@ =~= before.update(0, before[0].with_qty((front - match_qty) as u64)));
            }
        }
        proof {
            let step = seq![(resting_id, match_qty)];
            assert(fill_trace(before, (remaining + match_qty) as nat) =~= step + fill_trace(level.orders@, remaining as nat));
            assert(made.push((resting_id, match_qty)) + fill_trace(level.orders@, remaining as nat) =~= made + (step + fill_trace(level.orders@, remaining as nat)));
            let made2 = made.push((resting_id, match_qty));
            let recs = made2.map_values(|x: (u64, u64)| (price, x.0, x.1));
            assert forall|k: int| 0 <= k < recs.len() implies trade_made(
                #[trigger] trades@[from + k],
                *incoming,
                recs[k],
                wrapped_sum(ghost_id0@ + from + k),
                *pair,
            ) by {
                if k < made.len() {
                    assert(trades@[from + k] == tb[from + k]);
                    assert(recs[k] == made.map_values(|x: (u64, u64)| (price, x.0, x.1))[k]);
                }
            }
            assert(trades@.subrange(0, from) =~= tb.subrange(0, from));
            made = made2;
        }
    }
    proof {
        assert(made + Seq::<(u64, u64)>::empty() =~= made);
    }
    if matched_quantity > 0 {
        Some(matched_quantity)
    } else {
        None
    }
}

/// A book for one trading pair.
pub struct ConcurrentOrderBook {
    trading_pair: TradingPair,
    /// Levels in increasing price order.
    buy_levels: Vec<PriceLevel<Order>>,
    /// Levels in increasing price order.
    sell_levels: Vec<PriceLevel<Order>>,
    next_trade_id: u64,
}

impl ConcurrentOrderBook {
    /// The bids, level by level in increasing price order.
    pub closed spec fn bids(&self) -> Seq<(u64, Seq<Order>)> {
        side_view(self.buy_levels@)
    }

    /// The asks, level by level in increasing price order.
    pub closed spec fn asks(&self) -> Seq<(u64, Seq<Order>)> {
        side_view(self.sell_levels@)
    }

    /// The pair the book was made for.
    pub closed spec fn pair(&self) -> TradingPair {
        self.trading_pair
    }

    /// The number the next trade will get.
    pub closed spec fn next_id(&self) -> u64 {
        self.next_trade_id
    }

    /// Both sides are sorted, every level is consistent, and every order sits
    /// at the level of the price it was placed at.
    pub closed spec fn wf(&self) -> bool {
        &&& levels_wf(self.buy_levels@)
        &&& levels_wf(self.sell_levels@)
        &&& prices_match(self.bids())
        &&& prices_match(self.asks())
    }

    /// What a consistent book gives [`lemma_trades_keep_quantity`]: sorted
    /// sides whose orders all have something left and sit at the level of
    /// their own price.
    pub proof fn lemma_wf(&self)
        requires
            self.wf(),
        ensures
            sorted_prices(self.bids()),
            sorted_prices(self.asks()),
            levels_positive(self.bids()),
            levels_positive(self.asks()),
            prices_match(self.bids()),
            prices_match(self.asks()),
    {
        crate::side::lemma_side_view_len(self.buy_levels@);
        crate::side::lemma_side_view_len(self.sell_levels@);
        assert forall|i: int| 0 <= i < self.bids().len() implies all_positive(#[trigger] self.bids()[i].1) by {
            assert(self.buy_levels@[i].wf());
        }
        assert forall|i: int| 0 <= i < self.asks().len() implies all_positive(#[trigger] self.asks()[i].1) by {
            assert(self.sell_levels@[i].wf());
        }
    }

    /// An empty book for `trading_pair`.
    pub fn new(trading_pair: TradingPair) -> (r: Self)
        ensures
            r.wf(),
            r.pair() == trading_pair,
            r.bids() == Seq::<(u64, Seq<Order>)>::empty(),
            r.asks() == Seq::<(u64, Seq<Order>)>::empty(),
            r.next_id() == 1,
    {
        let r = ConcurrentOrderBook {
            trading_pair,
            buy_levels: Vec::new(),
            sell_levels: Vec::new(),
            next_trade_id: 1,
        };
        assert(r.bids() =~= Seq::<(u64, Seq<Order>)>::empty());
        assert(r.asks() =~= Seq::<(u64, Seq<Order>)>::empty());
        r
    }

    fn fill_levels(
        levels: &mut Vec<PriceLevel<Order>>,
        incoming: &Order,
        buying: bool,
        pair: &TradingPair,
        next_trade_id: &mut u64,
        trades: &mut Vec<Trade>,
    ) -> (rem: u64)
        requires
            levels_wf(old(levels)@),
            prices_match(side_view(old(levels)@)),
            old(trades)@.len() == 0,
        ensures
            levels_wf(final(levels)@),
            prices_match(side_view(final(levels)@)),
            ({
                let r = fill_each(side_view(old(levels)@), incoming.quantity as nat, incoming.price, buying);
                &&& side_view(final(levels)@) == r.0
                &&& rem == r.1
                &&& trades_made(final(trades)@, 0, *incoming, r.2, *old(next_trade_id), *pair)
                &&& *final(next_trade_id) == wrapped_sum(*old(next_trade_id) + final(trades)@.len())
            }),
    {
        let ghost v0 = side_view(levels@);
        let ghost id0 = *next_trade_id;
        let qty = incoming.quantity;
        let limit = incoming.price;
        let ghost mut made: Seq<(u64, u64, u64)> = Seq::empty();
        let mut remaining = qty;
        let mut i: usize = 0;
        proof {
            vstd::arithmetic::div_mod::lemma_small_mod(id0 as nat, crate::queue::u64_range() as nat);
        }
        assert(side_view(levels@).skip(0) =~= v0);
        assert(side_view(levels@).take(0) + fill_each(v0, qty as nat, limit, buying).0 =~= fill_each(v0, qty as nat, limit, buying).0);
        assert(made + fill_each(v0, qty as nat, limit, buying).2 =~= fill_each(v0, qty as nat, limit, buying).2);
        while i < levels.len() && remaining > 0
            invariant
                i <= levels.len(),
                levels.len() == v0.len(),
                levels_wf(levels@),
                prices_match(side_view(levels@)),
                side_view(levels@).skip(i as int) == v0.skip(i as int),
                fill_each(v0, qty as nat, limit, buying) == ({
                    let r = fill_each(side_view(levels@).skip(i as int), remaining as nat, limit, buying);
                    (side_view(levels@).take(i as int) + r.0, r.1, made + r.2)
                }),
                trades_made(trades@, 0, *incoming, made, id0, *pair),
                *next_trade_id == wrapped_sum(id0 + trades@.len()),
                qty == incoming.quantity,
                limit == incoming.price,
            decreases levels.len() - i,
        {
            let ghost cur = side_view(levels@);
            let ghost rest = cur.skip(i as int);
            let ghost tb = trades@;
            assert(rest[0] == cur[i as int]);
            assert(cur[i as int] == crate::side::level_view(levels@[i as int]));
            assert(levels@[i as int].wf());
            proof {
                lemma_fill(levels@[i as int].orders@, remaining as nat);
                lemma_fill_trace(levels@[i as int].orders@, remaining as nat);
            }
            let ok = (buying && levels[i].price <= limit) || (!buying && levels[i].price >= limit);
            let ghost rem0 = remaining;
            if ok {
                match try_match(&mut levels[i], remaining, incoming, pair, next_trade_id, trades, Ghost(id0)) {
                    Some(matched_quantity) => {
                        remaining = remaining - matched_quantity;
                    },
                    None => {},
                }
            }
            proof {
                let now_v = side_view(levels@);
                crate::side::lemma_side_view_len(levels@);
                lemma_fill_priced(cur[i as int].1, rem0 as nat, cur[i as int].0);
                assert forall|k: int| 0 <= k < now_v.len() implies all_priced(#[trigger] now_v[k].1, now_v[k].0) by {
                    if k != i {
                        assert(now_v[k] == cur[k]);
                    }
                }
                assert(now_v.skip(i + 1) =~= rest.drop_first());
                assert(now_v.take(i + 1) =~= cur.take(i as int).push(now_v[i as int]));
                let r = fill_each(rest.drop_first(), remaining as nat, limit, buying);
                assert(now_v.take(i as int + 1) + r.0 =~= cur.take(i as int) + (seq![now_v[i as int]] + r.0));
                assert(now_v.skip(i + 1) =~= v0.skip(i + 1)) by {
                    assert(v0.skip(i + 1) =~= v0.skip(i as int).drop_first());
                }
                assert forall|a: int, b: int| 0 <= a < b < now_v.len() implies now_v[a].0 < now_v[b].0 by {
                    assert(now_v[a].0 == cur[a].0);
                    assert(now_v[b].0 == cur[b].0);
                }
                let t = if ok { fill_trace(cur[i as int].1, rem0 as nat).map_values(|x: (u64, u64)| (cur[i as int].0, x.0, x.1)) } else { Seq::<(u64, u64, u64)>::empty() };
                if !ok {
                    assert(trades@ == tb);
                }
                assert(made + t + r.2 =~= made + (t + r.2));
                assert forall|k: int| 0 <= k < (made + t).len() implies trade_made(
                    #[trigger] trades@[0 + k],
                    *incoming,
                    (made + t)[k],
                    wrapped_sum(id0 + 0 + k),
                    *pair,
                ) by {
                    if k < made.len() {
                        assert(trades@[k] == trades@.subrange(0, tb.len() as int)[k]);
                        assert(trades@[0 + k] == tb[0 + k]);
                    } else {
                        let kk = k - made.len();
                        assert(trades@[tb.len() + kk] == trades@[k]);
                    }
                }
                made = made + t;
            }
            i = i + 1;
        }
        proof {
            let cur = side_view(levels@);
            assert(cur.take(i as int) + cur.skip(i as int) =~= cur);
        }
        remaining
    }

    /// Fills a sell against the bid levels `levels` from the highest price
    /// down, as [`fill_each_down`] says, recording a trade for every fill.
    fn fill_levels_down(
        levels: &mut Vec<PriceLevel<Order>>,
        incoming: &Order,
        pair: &TradingPair,
        next_trade_id: &mut u64,
        trades: &mut Vec<Trade>,
    ) -> (rem: u64)
        requires
            levels_wf(old(levels)@),
            prices_match(side_view(old(levels)@)),
            old(trades)@.len() == 0,
        ensures
            levels_wf(final(levels)@),
            prices_match(side_view(final(levels)@)),
            ({
                let r = fill_each_down(side_view(old(levels)@), incoming.quantity as nat, incoming.price);
                &&& side_view(final(levels)@) == r.0
                &&& rem == r.1
                &&& trades_made(final(trades)@, 0, *incoming, r.2, *old(next_trade_id), *pair)
                &&& *final(next_trade_id) == wrapped_sum(*old(next_trade_id) + final(trades)@.len())
            }),
    {
        let ghost v0 = side_view(levels@);
        let ghost id0 = *next_trade_id;
        let qty = incoming.quantity;
        let limit = incoming.price;
        let ghost mut made: Seq<(u64, u64, u64)> = Seq::empty();
        let mut remaining = qty;
        let mut i: usize = levels.len();
        proof {
            vstd::arithmetic::div_mod::lemma_small_mod(id0 as nat, crate::queue::u64_range() as nat);
            crate::side::lemma_side_view_len(levels@);
        }
        assert(side_view(levels@).take(i as int) =~= v0);
        assert(side_view(levels@).skip(i as int) =~= Seq::<(u64, Seq<Order>)>::empty());
        assert(fill_each_down(v0, qty as nat, limit).0 + side_view(levels@).skip(i as int) =~= fill_each_down(v0, qty as nat, limit).0);
        assert(made + fill_each_down(v0, qty as nat, limit).2 =~= fill_each_down(v0, qty as nat, limit).2);
        while i > 0 && remaining > 0
            invariant
                i <= levels.len(),
                levels.len() == v0.len(),
                levels_wf(levels@),
                prices_match(side_view(levels@)),
                side_view(levels@).take(i as int) == v0.take(i as int),
                fill_each_down(v0, qty as nat, limit) == ({
                    let r = fill_each_down(side_view(levels@).take(i as int), remaining as nat, limit);
                    (r.0 + side_view(levels@).skip(i as int), r.1, made + r.2)
                }),
                trades_made(trades@, 0, *incoming, made, id0, *pair),
                *next_trade_id == wrapped_sum(id0 + trades@.len()),
                qty == incoming.quantity,
                limit == incoming.price,
            decreases i,
        {
            let j = i - 1;
            let ghost cur = side_view(levels@);
            let ghost low = cur.take(i as int);
            let ghost tb = trades@;
            proof {
                crate::side::lemma_side_view_len(levels@);
            }
            assert(low.last() == cur[j as int]);
            assert(cur[j as int] == crate::side::level_view(levels@[j as int]));
            assert(levels@[j as int].wf());
            proof {
                lemma_fill(levels@[j as int].orders@, remaining as nat);
                lemma_fill_trace(levels@[j as int].orders@, remaining as nat);
            }
            let ok = levels[j].price >= limit;
            let ghost rem0 = remaining;
            if ok {
                match try_match(&mut levels[j], remaining, incoming, pair, next_trade_id, trades, Ghost(id0)) {
                    Some(matched_quantity) => {
                        remaining = remaining - matched_quantity;
                    },
                    None => {},
                }
            }
            proof {
                crate::side::lemma_side_view_len(levels@);
                let now_v = side_view(levels@);
                lemma_fill_priced(cur[j as int].1, rem0 as nat, cur[j as int].0);
                assert forall|k: int| 0 <= k < now_v.len() implies all_priced(#[trigger] now_v[k].1, now_v[k].0) by {
                    if k != j {
                        assert(now_v[k] == cur[k]);
                    }
                }
                assert(now_v.take(j as int) =~= low.drop_last());
                assert(now_v.skip(j as int) =~= seq![now_v[j as int]] + cur.skip(i as int));
                let r = fill_each_down(low.drop_last(), remaining as nat, limit);
                assert(r.0.push(now_v[j as int]) + cur.skip(i as int) =~= r.0 + now_v.skip(j as int));
                assert(now_v.take(j as int) =~= v0.take(j as int)) by {
                    assert(v0.take(j as int) =~= v0.take(i as int).drop_last());
                }
                assert forall|a: int, b: int| 0 <= a < b < now_v.len() implies now_v[a].0 < now_v[b].0 by {
                    assert(now_v[a].0 == cur[a].0);
                    assert(now_v[b].0 == cur[b].0);
                }
                let t = if ok { fill_trace(cur[j as int].1, rem0 as nat).map_values(|x: (u64, u64)| (cur[j as int].0, x.0, x.1)) } else { Seq::<(u64, u64, u64)>::empty() };
                if !ok {
                    assert(trades@ == tb);
                }
                assert(made + t + r.2 =~= made + (t + r.2));
                assert forall|k: int| 0 <= k < (made + t).len() implies trade_made(
                    #[trigger] trades@[0 + k],
                    *incoming,
                    (made + t)[k],
                    wrapped_sum(id0 + 0 + k),
                    *pair,
                ) by {
                    if k < made.len() {
                        assert(trades@[k] == trades@.subrange(0, tb.len() as int)[k]);
                        assert(trades@[0 + k] == tb[0 + k]);
                    } else {
                        let kk = k - made.len();
                        assert(trades@[tb.len() + kk] == trades@[k]);
                    }
                }
                made = made + t;
            }
            i = j;
        }
        proof {
            let cur = side_view(levels@);
            assert(cur.take(i as int) + cur.skip(i as int) =~= cur);
            assert(made + Seq::<(u64, u64, u64)>::empty() =~= made);
        }
        remaining
    }

    /// Fills the order against the opposite side as [`book_after`] says and
    /// rests what is left. Returns a trade for every fill, numbered on from
    /// [`Self::next_id`].
    fn process_order(&mut self, order: Order) -> (trades: Vec<Trade>)
        requires
            old(self).wf(),
        ensures
            final(self).wf(),
            final(self).pair() == old(self).pair(),
            (final(self).bids(), final(self).asks()) == book_after(old(self).bids(), old(self).asks(), order),
            trades_made(trades@, 0, order, fills_of(old(self).bids(), old(self).asks(), order), old(self).next_id(), old(self).pair()),
            final(self).next_id() == wrapped_sum(old(self).next_id() + trades@.len()),
    {
        let mut trades = Vec::new();
        let buying = match order.order_type {
            OrderType::Buy => true,
            OrderType::Sell => false,
        };
        let remaining_qty = if buying {
            Self::fill_levels(&mut self.sell_levels, &order, true, &self.trading_pair, &mut self.next_trade_id, &mut trades)
        } else {
            Self::fill_levels_down(&mut self.buy_levels, &order, &self.trading_pair, &mut self.next_trade_id, &mut trades)
        };
        if remaining_qty > 0 {
            let mut remaining_order = order.clone();
            remaining_order.quantity = remaining_qty;
            if buying {
                proof {
                    lemma_rest_order_priced(self.bids(), order.price, remaining_order);
                }
                rest_at(&mut self.buy_levels, order.price, remaining_order);
            } else {
                proof {
                    lemma_rest_order_priced(self.asks(), order.price, remaining_order);
                }
                rest_at(&mut self.sell_levels, order.price, remaining_order);
            }
        }
        trades
    }

    /// Adds an order as [`book_after`] says. Returns a trade for every fill,
    /// numbered on from [`Self::next_id`], to be published.
    pub fn add_order(&mut self, order: Order) -> (trades: Vec<Trade>)
        requires
            old(self).wf(),
        ensures
            final(self).wf(),
            final(self).pair() == old(self).pair(),
            (final(self).bids(), final(self).asks()) == book_after(old(self).bids(), old(self).asks(), order),
            trades_made(trades@, 0, order, fills_of(old(self).bids(), old(self).asks(), order), old(self).next_id(), old(self).pair()),
            final(self).next_id() == wrapped_sum(old(self).next_id() + trades@.len()),
    {
        self.process_order(order)
    }

    /// Matching happens as orders arrive: there is nothing to match here.
    pub fn match_orders(&self) -> (trades: Vec<Trade>)
        ensures
            trades@.len() == 0,
    {
        Vec::new()
    }

    /// The mid price of the highest bid level and the lowest ask level, empty
    /// or not, or [`crate::engine::order_book::DEFAULT_PRICE`] when the book
    /// has no level.
    pub fn get_current_price(&self) -> (r: Option<MidPrice>)
        ensures
            r == Some(price_or_default(highest_price(self.bids()), lowest_price(self.asks()))),
    {
        let bid = if self.buy_levels.len() > 0 {
            Some(self.buy_levels[self.buy_levels.len() - 1].price)
        } else {
            None
        };
        let ask = if self.sell_levels.len() > 0 {
            Some(self.sell_levels[0].price)
        } else {
            None
        };
        Some(price_or_default_of(bid, ask))
    }

    /// The levels with their totals: bids from the highest price down, asks
    /// from the lowest price up.
    pub fn get_order_book(&self) -> (r: (Vec<OrderBookEntry>, Vec<OrderBookEntry>))
        requires
            self.wf(),
        ensures
            r.0@ == entries(self.bids()).reverse(),
            r.1@ == entries(self.asks()),
    {
        let mut bids: Vec<OrderBookEntry> = Vec::new();
        let mut i: usize = self.buy_levels.len();
        while i > 0
            invariant
                i <= self.buy_levels.len(),
                self.wf(),
                bids@ == entries(self.bids()).subrange(i as int, self.buy_levels.len() as int).reverse(),
            decreases i,
        {
            i = i - 1;
            assert(self.buy_levels@[i as int].wf());
            bids.push(OrderBookEntry { price: self.buy_levels[i].price, quantity: self.buy_levels[i].total_quantity });
            assert(entries(self.bids()).subrange(i as int, self.buy_levels.len() as int).reverse() =~= entries(
                self.bids(),
            ).subrange(i + 1, self.buy_levels.len() as int).reverse().push(entries(self.bids())[i as int]));
        }
        let mut asks: Vec<OrderBookEntry> = Vec::new();
        let mut j: usize = 0;
        while j < self.sell_levels.len()
            invariant
                j <= self.sell_levels.len(),
                self.wf(),
                asks@ == entries(self.asks()).take(j as int),
            decreases self.sell_levels.len() - j,
        {
            assert(self.sell_levels@[j as int].wf());
            asks.push(OrderBookEntry { price: self.sell_levels[j].price, quantity: self.sell_levels[j].total_quantity });
            assert(entries(self.asks()).take(j + 1) =~= entries(self.asks()).take(j as int).push(entries(self.asks())[j as int]));
            j = j + 1;
        }
        assert(entries(self.asks()).take(j as int) =~= entries(self.asks()));
        assert(entries(self.bids()).subrange(0, self.buy_levels.len() as int) =~= entries(self.bids()));
        (bids, asks)
    }

    /// This book keeps no trades.
    pub fn get_trade_history(&self) -> (trades: Vec<Trade>)
        ensures
            trades@.len() == 0,
    {
        Vec::new()
    }

    /// Numbers of bids and of asks resting on the book, counted wide enough
    /// never to overflow.
    pub fn order_counts_wide(&self) -> (n: (u128, u128))
        ensures
            n.0 == count_orders(self.bids()),
            n.1 == count_orders(self.asks()),
    {
        (count_resting_wide(&self.buy_levels), count_resting_wide(&self.sell_levels))
    }

    /// Number of orders resting on the book.
    pub fn get_active_orders_count(&self) -> (n: usize)
        requires
            count_orders(self.bids()) + count_orders(self.asks()) <= usize::MAX,
        ensures
            n == count_orders(self.bids()) + count_orders(self.asks()),
    {
        let buy_count = count_resting(&self.buy_levels);
        let sell_count = count_resting(&self.sell_levels);
        buy_count + sell_count
    }
}

} // verus!
