//! One side of a book: its price levels in increasing price order, and the
//! two things done to a side: an incoming order is filled against it, best
//! price first, and what is left of an order comes to rest on it.
//!
//! A side is a `Vec` of levels kept sorted by price rather than a `BTreeMap`
//! keyed by price: matching needs the best (first or last) level and changes
//! it in place, and vstd specifies neither `first_key_value`/`last_key_value`
//! nor `get_mut` nor `range` on `BTreeMap`.

use vstd::prelude::*;
use crate::level::{Quantified, PriceLevel, fill, sum_qty, all_positive, all_priced, lemma_sum_qty_push, lemma_fill, lemma_fill_priced};

verus! {

/// A level as the contracts see it: its price and its orders, oldest first.
pub open spec fn level_view<T>(l: PriceLevel<T>) -> (u64, Seq<T>) {
    (l.price, l.orders@)
}

/// A side as the contracts see it: its levels in the order held.
pub open spec fn side_view<T>(levels: Seq<PriceLevel<T>>) -> Seq<(u64, Seq<T>)> {
    levels.map_values(|l: PriceLevel<T>| level_view(l))
}

/// Prices increase strictly from level to level.
pub open spec fn sorted_prices<T>(side: Seq<(u64, Seq<T>)>) -> bool {
    forall|i: int, j: int| 0 <= i < j < side.len() ==> side[i].0 < side[j].0
}

/// Every level holds at least one order, and every order has something left.
pub open spec fn levels_filled<T: Quantified>(side: Seq<(u64, Seq<T>)>) -> bool {
    forall|i: int|
        0 <= i < side.len() ==> #[trigger] side[i].1.len() > 0 && all_positive(side[i].1)
}

/// Every resting order of a side has something left (levels may be empty).
pub open spec fn levels_positive<T: Quantified>(side: Seq<(u64, Seq<T>)>) -> bool {
    forall|i: int| 0 <= i < side.len() ==> all_positive(#[trigger] side[i].1)
}

/// The levels are consistent and in increasing price order.
pub open spec fn levels_wf<T: Quantified>(levels: Seq<PriceLevel<T>>) -> bool {
    &&& forall|i: int| 0 <= i < levels.len() ==> (#[trigger] levels[i]).wf()
    &&& sorted_prices(side_view(levels))
}

/// A side as an order book keeps it: sorted, and no level empty.
pub open spec fn side_wf<T: Quantified>(levels: Seq<PriceLevel<T>>) -> bool {
    &&& levels_wf(levels)
    &&& levels_filled(side_view(levels))
}

/// Number of orders resting on a side.
pub open spec fn count_orders<T>(side: Seq<(u64, Seq<T>)>) -> nat
    decreases side.len(),
{
    if side.len() == 0 {
        0
    } else {
        count_orders(side.drop_last()) + side.last().1.len()
    }
}

/// Total quantity resting on a side.
pub open spec fn side_qty<T: Quantified>(side: Seq<(u64, Seq<T>)>) -> nat
    decreases side.len(),
{
    if side.len() == 0 {
        0
    } else {
        side_qty(side.drop_last()) + sum_qty(side.last().1)
    }
}

/// Lowest price on a side (the best ask of a sell side).
pub open spec fn lowest_price<T>(side: Seq<(u64, Seq<T>)>) -> Option<u64> {
    if side.len() == 0 {
        None
    } else {
        Some(side[0].0)
    }
}

/// Highest price on a side (the best bid of a buy side).
pub open spec fn highest_price<T>(side: Seq<(u64, Seq<T>)>) -> Option<u64> {
    if side.len() == 0 {
        None
    } else {
        Some(side.last().0)
    }
}

/// On a side sorted by price, the lowest price is the price of one of its
/// levels and no level is priced below it, and the highest price is the
/// price of one of its levels and no level is priced above it; both are
/// absent exactly when the side has no level.
pub proof fn lemma_side_extremes<T>(side: Seq<(u64, Seq<T>)>)
    requires
        sorted_prices(side),
    ensures
        lowest_price(side) is None <==> side.len() == 0,
        highest_price(side) is None <==> side.len() == 0,
        lowest_price(side) matches Some(a) ==> (exists|i: int| 0 <= i < side.len() && #[trigger] side[i].0 == a)
            && forall|j: int| 0 <= j < side.len() ==> a <= #[trigger] side[j].0,
        highest_price(side) matches Some(b) ==> (exists|i: int| 0 <= i < side.len() && #[trigger] side[i].0 == b)
            && forall|j: int| 0 <= j < side.len() ==> #[trigger] side[j].0 <= b,
{
    if side.len() > 0 {
        assert(side[0].0 == side[0].0);
        assert(side[side.len() - 1].0 == side.last().0);
        assert forall|j: int| 0 <= j < side.len() implies side[0].0 <= #[trigger] side[j].0 by {
            if j > 0 {
                assert(side[0].0 < side[j].0);
            }
        }
        assert forall|j: int| 0 <= j < side.len() implies #[trigger] side[j].0 <= side.last().0 by {
            if j < side.len() - 1 {
                assert(side[j].0 < side[side.len() - 1].0);
            }
        }
    }
}

/// Fills a buy of `qty` limited to `limit` against a sell side, lowest price
/// first, while the price is within the limit; emptied levels leave the side.
/// Gives the side that remains and the quantity left unfilled.
pub open spec fn fill_from_lowest<T: Quantified>(
    side: Seq<(u64, Seq<T>)>,
    qty: nat,
    limit: u64,
) -> (Seq<(u64, Seq<T>)>, nat)
    decreases side.len(),
{
    if qty == 0 || side.len() == 0 || side[0].0 > limit {
        (side, qty)
    } else {
        let f = fill(side[0].1, qty);
        if f.0.len() == 0 {
            fill_from_lowest(side.drop_first(), (qty - f.1) as nat, limit)
        } else {
            (side.update(0, (side[0].0, f.0)), (qty - f.1) as nat)
        }
    }
}

/// Fills a sell of `qty` limited to `limit` against a buy side, highest price
/// first, while the price is within the limit; emptied levels leave the side.
/// Gives the side that remains and the quantity left unfilled.
pub open spec fn fill_from_highest<T: Quantified>(
    side: Seq<(u64, Seq<T>)>,
    qty: nat,
    limit: u64,
) -> (Seq<(u64, Seq<T>)>, nat)
    decreases side.len(),
{
    if qty == 0 || side.len() == 0 || side.last().0 < limit {
        (side, qty)
    } else {
        let f = fill(side.last().1, qty);
        if f.0.len() == 0 {
            fill_from_highest(side.drop_last(), (qty - f.1) as nat, limit)
        } else {
            (side.update(side.len() - 1, (side.last().0, f.0)), (qty - f.1) as nat)
        }
    }
}

/// Number of levels priced below `price` at the start of a sorted side: the
/// place where a level at `price` is or belongs.
pub open spec fn lower_bound<T>(side: Seq<(u64, Seq<T>)>, price: u64) -> nat
    decreases side.len(),
{
    if side.len() == 0 || side[0].0 >= price {
        0
    } else {
        1 + lower_bound(side.drop_first(), price)
    }
}

/// The side with `order` resting behind the others at `price`: appended to
/// the level at that price, or alone on a new level put in price order.
pub open spec fn rest_order<T>(side: Seq<(u64, Seq<T>)>, price: u64, order: T) -> Seq<
    (u64, Seq<T>),
> {
    let i = lower_bound(side, price) as int;
    if i < side.len() && side[i].0 == price {
        side.update(i, (price, side[i].1.push(order)))
    } else {
        side.insert(i, (price, seq![order]))
    }
}

/// Every resting order sits at the level of the price it was placed at.
pub open spec fn prices_match<T: Quantified>(side: Seq<(u64, Seq<T>)>) -> bool {
    forall|i: int| 0 <= i < side.len() ==> all_priced(#[trigger] side[i].1, side[i].0)
}

// ----- lemmas on the spec functions -----

pub proof fn lemma_side_view_len<T>(levels: Seq<PriceLevel<T>>)
    ensures
        side_view(levels).len() == levels.len(),
        forall|i: int| 0 <= i < levels.len() ==> #[trigger] side_view(levels)[i] == level_view(levels[i]),
{
}

pub proof fn lemma_count_orders_first<T>(side: Seq<(u64, Seq<T>)>)
    requires
        side.len() > 0,
    ensures
        count_orders(side) == side[0].1.len() + count_orders(side.drop_first()),
    decreases side.len(),
{
    if side.len() > 1 {
        lemma_count_orders_first(side.drop_last());
        assert(side.drop_last().drop_first() =~= side.drop_first().drop_last());
    } else {
        assert(side.drop_first() =~= Seq::<(u64, Seq<T>)>::empty());
        assert(side.drop_last() =~= Seq::<(u64, Seq<T>)>::empty());
    }
}

pub proof fn lemma_side_qty_first<T: Quantified>(side: Seq<(u64, Seq<T>)>)
    requires
        side.len() > 0,
    ensures
        side_qty(side) == sum_qty(side[0].1) + side_qty(side.drop_first()),
    decreases side.len(),
{
    if side.len() > 1 {
        lemma_side_qty_first(side.drop_last());
        assert(side.drop_last().drop_first() =~= side.drop_first().drop_last());
    } else {
        assert(side.drop_first() =~= Seq::<(u64, Seq<T>)>::empty());
        assert(side.drop_last() =~= Seq::<(u64, Seq<T>)>::empty());
    }
}

/// Counting and summing a side level by level: replacing one level changes
/// the count and the total by what that level changed.
pub proof fn lemma_side_update<T: Quantified>(side: Seq<(u64, Seq<T>)>, i: int, l: (u64, Seq<T>))
    requires
        0 <= i < side.len(),
    ensures
        count_orders(side.update(i, l)) + side[i].1.len() == count_orders(side) + l.1.len(),
        side_qty(side.update(i, l)) + sum_qty(side[i].1) == side_qty(side) + sum_qty(l.1),
    decreases side.len(),
{
    if i == side.len() - 1 {
        assert(side.update(i, l).drop_last() =~= side.drop_last());
    } else {
        lemma_side_update(side.drop_last(), i, l);
        assert(side.update(i, l).drop_last() =~= side.drop_last().update(i, l));
    }
}

pub proof fn lemma_side_insert<T: Quantified>(side: Seq<(u64, Seq<T>)>, i: int, l: (u64, Seq<T>))
    requires
        0 <= i <= side.len(),
    ensures
        count_orders(side.insert(i, l)) == count_orders(side) + l.1.len(),
        side_qty(side.insert(i, l)) == side_qty(side) + sum_qty(l.1),
    decreases side.len(),
{
    if i == side.len() {
        assert(side.insert(i, l).drop_last() =~= side);
    } else {
        lemma_side_insert(side.drop_last(), i, l);
        assert(side.insert(i, l).drop_last() =~= side.drop_last().insert(i, l));
    }
}

pub proof fn lemma_lower_bound<T>(side: Seq<(u64, Seq<T>)>, price: u64, i: int)
    requires
        sorted_prices(side),
        0 <= i <= side.len(),
        forall|j: int| 0 <= j < i ==> side[j].0 < price,
        i < side.len() ==> side[i].0 >= price,
    ensures
        lower_bound(side, price) == i,
    decreases i,
{
    if i > 0 {
        lemma_lower_bound(side.drop_first(), price, i - 1);
    }
}

/// Resting an order adds it to the count and the total, and keeps the side
/// sorted with no empty level.
pub proof fn lemma_rest_order<T: Quantified>(side: Seq<(u64, Seq<T>)>, price: u64, order: T)
    requires
        sorted_prices(side),
        levels_filled(side),
        order.qty() > 0,
    ensures
        sorted_prices(rest_order(side, price, order)),
        levels_filled(rest_order(side, price, order)),
        count_orders(rest_order(side, price, order)) == count_orders(side) + 1,
        side_qty(rest_order(side, price, order)) == side_qty(side) + order.qty(),
        highest_price(rest_order(side, price, order)) == Some(
            if highest_price(side) is Some && highest_price(side)->0 > price {
                highest_price(side)->0
            } else {
                price
            },
        ),
        lowest_price(rest_order(side, price, order)) == Some(
            if lowest_price(side) is Some && lowest_price(side)->0 < price {
                lowest_price(side)->0
            } else {
                price
            },
        ),
{
    lemma_lower_bound_props(side, price);
    let i = lower_bound(side, price) as int;
    let r = rest_order(side, price, order);
    if i < side.len() && side[i].0 == price {
        lemma_side_update(side, i, (price, side[i].1.push(order)));
        lemma_sum_qty_push(side[i].1, order);
        assert forall|k: int| 0 <= k < r.len() implies #[trigger] r[k].1.len() > 0 && all_positive(
            r[k].1,
        ) by {
            if k == i {
                assert(r[k].1 == side[i].1.push(order));
                assert forall|m: int| 0 <= m < r[k].1.len() implies #[trigger] r[k].1[m].qty() > 0 by {
                    if m < side[i].1.len() {
                        assert(side[i].1.len() > 0 && all_positive(side[i].1));
                    }
                }
            }
        }
    } else {
        lemma_side_insert(side, i, (price, seq![order]));
        assert(sum_qty(seq![order]) == order.qty()) by {
            lemma_sum_qty_push(Seq::<T>::empty(), order);
            assert(Seq::<T>::empty().push(order) =~= seq![order]);
        }
        assert forall|k: int| 0 <= k < r.len() implies #[trigger] r[k].1.len() > 0 && all_positive(
            r[k].1,
        ) by {
            if k < i {
                assert(r[k] == side[k]);
            } else if k > i {
                assert(r[k] == side[k - 1]);
            }
        }
        assert forall|a: int, b: int| 0 <= a < b < r.len() implies r[a].0 < r[b].0 by {
            if a < i && b == i {
            } else if a < i && b > i {
                assert(r[b] == side[b - 1]);
            } else if a == i && b > i {
                assert(r[b] == side[b - 1]);
            } else if a > i {
                assert(r[a] == side[a - 1]);
                assert(r[b] == side[b - 1]);
            }
        }
    }
}

/// Resting keeps time priority: the order joins its price's level at the
/// back, behind every order already there, or opens a new level at that
/// price in its place in price order; every other level stays as it was.
pub proof fn lemma_rest_order_at_back<T>(side: Seq<(u64, Seq<T>)>, price: u64, order: T)
    requires
        sorted_prices(side),
    ensures
        ({
            let r = rest_order(side, price, order);
            exists|i: int| {
                &&& 0 <= i < r.len()
                &&& #[trigger] r[i].0 == price
                &&& r[i].1.len() >= 1
                &&& r[i].1.last() == order
                &&& forall|j: int| 0 <= j < i ==> r[j] == side[j]
                &&& {
                    ||| r.len() == side.len() + 1 && r[i].1.len() == 1
                        && forall|j: int| i < j < r.len() ==> r[j] == side[j - 1]
                    ||| r.len() == side.len() && side[i].0 == price && r[i].1.drop_last() == side[i].1
                        && forall|j: int| i < j < r.len() ==> r[j] == side[j]
                }
            }
        }),
{
    lemma_lower_bound_props(side, price);
    let i = lower_bound(side, price) as int;
    let r = rest_order(side, price, order);
    if i < side.len() && side[i].0 == price {
        assert(r[i].1.drop_last() =~= side[i].1);
        assert(r[i].0 == price);
    } else {
        assert(r[i].1 =~= seq![order]);
        assert(r[i].0 == price);
    }
}

/// Resting an order adds its quantity to the side's total, whatever the
/// levels hold.
pub proof fn lemma_rest_order_qty<T: Quantified>(side: Seq<(u64, Seq<T>)>, price: u64, order: T)
    requires
        sorted_prices(side),
    ensures
        side_qty(rest_order(side, price, order)) == side_qty(side) + order.qty(),
        count_orders(rest_order(side, price, order)) == count_orders(side) + 1,
{
    lemma_lower_bound_props(side, price);
    let i = lower_bound(side, price) as int;
    if i < side.len() && side[i].0 == price {
        lemma_side_update(side, i, (price, side[i].1.push(order)));
        lemma_sum_qty_push(side[i].1, order);
    } else {
        lemma_side_insert(side, i, (price, seq![order]));
        lemma_sum_qty_push(Seq::<T>::empty(), order);
        assert(Seq::<T>::empty().push(order) =~= seq![order]);
    }
}

/// `lower_bound` on a sorted side splits it into the levels below the price
/// and the levels at or above it.
pub proof fn lemma_lower_bound_props<T>(side: Seq<(u64, Seq<T>)>, price: u64)
    requires
        sorted_prices(side),
    ensures
        lower_bound(side, price) <= side.len(),
        forall|j: int| 0 <= j < lower_bound(side, price) ==> side[j].0 < price,
        forall|j: int| lower_bound(side, price) <= j < side.len() ==> side[j].0 >= price,
    decreases side.len(),
{
    if side.len() > 0 && side[0].0 < price {
        lemma_lower_bound_props(side.drop_first(), price);
        assert forall|j: int| 0 <= j < lower_bound(side, price) implies side[j].0 < price by {
            if j > 0 {
                assert(side[j] == side.drop_first()[j - 1]);
            }
        }
        assert forall|j: int| lower_bound(side, price) <= j < side.len() implies side[j].0
            >= price by {
            assert(side[j] == side.drop_first()[j - 1]);
        }
    }
}

/// Filling from the lowest price: the side stays sorted with no empty level,
/// what is filled leaves the side, no more than was asked is filled, the
/// lowest price does not fall, and an order left with something has met a
/// price beyond its limit or an empty side.
pub proof fn lemma_fill_from_lowest<T: Quantified>(side: Seq<(u64, Seq<T>)>, qty: nat, limit: u64)
    requires
        sorted_prices(side),
        levels_filled(side),
    ensures
        ({
            let (r, rem) = fill_from_lowest(side, qty, limit);
            &&& sorted_prices(r)
            &&& levels_filled(r)
            &&& rem <= qty
            &&& side_qty(r) + qty == side_qty(side) + rem
            &&& count_orders(r) <= count_orders(side)
            &&& r.len() <= side.len()
            &&& (r.len() > 0 ==> r[0].0 >= side[0].0)
            &&& (rem > 0 ==> r.len() == 0 || r[0].0 > limit)
            &&& (rem == qty ==> r == side)
        }),
    decreases side.len(),
{
    if qty == 0 || side.len() == 0 || side[0].0 > limit {
    } else {
        assert(side[0].1.len() > 0 && all_positive(side[0].1));
        lemma_fill(side[0].1, qty);
        let f = fill(side[0].1, qty);
        lemma_side_qty_first(side);
        lemma_count_orders_first(side);
        if f.0.len() == 0 {
            let rest = side.drop_first();
            assert forall|i: int| 0 <= i < rest.len() implies #[trigger] rest[i].1.len() > 0
                && all_positive(rest[i].1) by {
                assert(rest[i] == side[i + 1]);
            }
            lemma_fill_from_lowest(rest, (qty - f.1) as nat, limit);
            let (r, rem) = fill_from_lowest(rest, (qty - f.1) as nat, limit);
            if r.len() > 0 {
                assert(rest[0] == side[1]);
            }
            assert(sum_qty(f.0) == 0);
        } else {
            let r = side.update(0, (side[0].0, f.0));
            lemma_side_update(side, 0, (side[0].0, f.0));
            assert forall|i: int| 0 <= i < r.len() implies #[trigger] r[i].1.len() > 0
                && all_positive(r[i].1) by {
                if i > 0 {
                    assert(r[i] == side[i]);
                }
            }
        }
    }
}

/// Filling from the lowest price keeps price priority: it empties and
/// removes the cheapest levels first, all priced within the limit, and then
/// at most reduces the next one, which keeps its price; the levels above it
/// are untouched.
pub proof fn lemma_fill_from_lowest_priority<T: Quantified>(side: Seq<(u64, Seq<T>)>, qty: nat, limit: u64)
    ensures
        ({
            let r = fill_from_lowest(side, qty, limit).0;
            let k = side.len() - r.len();
            &&& r.len() <= side.len()
            &&& forall|j: int| 0 <= j < k ==> #[trigger] side[j].0 <= limit
            &&& forall|i: int| 0 < i < r.len() ==> #[trigger] r[i] == side[k + i]
            &&& r.len() > 0 ==> r[0].0 == side[k].0
        }),
    decreases side.len(),
{
    if qty == 0 || side.len() == 0 || side[0].0 > limit {
    } else {
        let f = fill(side[0].1, qty);
        if f.0.len() == 0 {
            let rest = side.drop_first();
            lemma_fill_from_lowest_priority(rest, (qty - f.1) as nat, limit);
            let r = fill_from_lowest(rest, (qty - f.1) as nat, limit).0;
            let k = side.len() - r.len();
            assert forall|j: int| 0 <= j < k implies #[trigger] side[j].0 <= limit by {
                if j > 0 {
                    assert(side[j] == rest[j - 1]);
                }
            }
            assert forall|i: int| 0 < i < r.len() implies #[trigger] r[i] == side[k + i] by {
                assert(rest[(k - 1) + i] == side[k + i]);
            }
        }
    }
}

/// Filling from the highest price keeps price priority: it empties and
/// removes the dearest levels first, all priced within the limit, and then
/// at most reduces the next one, which keeps its price; the levels below it
/// are untouched.
pub proof fn lemma_fill_from_highest_priority<T: Quantified>(side: Seq<(u64, Seq<T>)>, qty: nat, limit: u64)
    ensures
        ({
            let r = fill_from_highest(side, qty, limit).0;
            let n = r.len();
            &&& n <= side.len()
            &&& forall|j: int| n <= j < side.len() ==> #[trigger] side[j].0 >= limit
            &&& forall|i: int| 0 <= i < n - 1 ==> #[trigger] r[i] == side[i]
            &&& n > 0 ==> r[n - 1].0 == side[n - 1].0
        }),
    decreases side.len(),
{
    if qty == 0 || side.len() == 0 || side.last().0 < limit {
    } else {
        let f = fill(side.last().1, qty);
        if f.0.len() == 0 {
            let rest = side.drop_last();
            lemma_fill_from_highest_priority(rest, (qty - f.1) as nat, limit);
            let r = fill_from_highest(rest, (qty - f.1) as nat, limit).0;
            assert forall|j: int| r.len() <= j < side.len() implies #[trigger] side[j].0 >= limit by {
                if j < side.len() - 1 {
                    assert(side[j] == rest[j]);
                }
            }
            assert forall|i: int| 0 <= i < r.len() - 1 implies #[trigger] r[i] == side[i] by {
                assert(rest[i] == side[i]);
            }
            if r.len() > 0 {
                assert(rest[r.len() - 1] == side[r.len() - 1]);
            }
        }
    }
}

/// Filling from the highest price: as for the lowest, mirrored.
pub proof fn lemma_fill_from_highest<T: Quantified>(side: Seq<(u64, Seq<T>)>, qty: nat, limit: u64)
    requires
        sorted_prices(side),
        levels_filled(side),
    ensures
        ({
            let (r, rem) = fill_from_highest(side, qty, limit);
            &&& sorted_prices(r)
            &&& levels_filled(r)
            &&& rem <= qty
            &&& side_qty(r) + qty == side_qty(side) + rem
            &&& count_orders(r) <= count_orders(side)
            &&& r.len() <= side.len()
            &&& (r.len() > 0 ==> r.last().0 <= side.last().0)
            &&& (rem > 0 ==> r.len() == 0 || r.last().0 < limit)
            &&& (rem == qty ==> r == side)
        }),
    decreases side.len(),
{
    if qty == 0 || side.len() == 0 || side.last().0 < limit {
    } else {
        let n = side.len() - 1;
        assert(side[n].1.len() > 0 && all_positive(side[n].1));
        lemma_fill(side.last().1, qty);
        let f = fill(side.last().1, qty);
        if f.0.len() == 0 {
            let rest = side.drop_last();
            assert(count_orders(side) == count_orders(rest) + side.last().1.len());
            assert(side_qty(side) == side_qty(rest) + sum_qty(side.last().1));
            assert forall|i: int| 0 <= i < rest.len() implies #[trigger] rest[i].1.len() > 0
                && all_positive(rest[i].1) by {
                assert(rest[i] == side[i]);
            }
            lemma_fill_from_highest(rest, (qty - f.1) as nat, limit);
            let (r, rem) = fill_from_highest(rest, (qty - f.1) as nat, limit);
            if r.len() > 0 {
                assert(rest.last() == side[n - 1]);
            }
            assert(sum_qty(f.0) == 0);
        } else {
            let r = side.update(n, (side.last().0, f.0));
            lemma_side_update(side, n, (side.last().0, f.0));
            assert forall|i: int| 0 <= i < r.len() implies #[trigger] r[i].1.len() > 0
                && all_positive(r[i].1) by {
                if i < n {
                    assert(r[i] == side[i]);
                }
            }
        }
    }
}

// ----- the executable operations on a side -----

/// Fills a buy of `qty` limited to `limit` against the sell side `levels`,
/// lowest price first; emptied levels leave the side. Returns what is left
/// unfilled.
pub fn fill_lowest_first<T: Quantified>(levels: &mut Vec<PriceLevel<T>>, qty: u64, limit: u64) -> (rem: u64)
    requires
        side_wf(old(levels)@),
    ensures
        side_wf(final(levels)@),
        (side_view(final(levels)@), rem as nat) == fill_from_lowest(side_view(old(levels)@), qty as nat, limit),
{
    let mut remaining = qty;
    while remaining > 0 && levels.len() > 0 && levels[0].price <= limit
        invariant
            side_wf(levels@),
            fill_from_lowest(side_view(old(levels)@), qty as nat, limit)
                == fill_from_lowest(side_view(levels@), remaining as nat, limit),
        decreases levels.len(), remaining,
    {
        let ghost before = levels@;
        assert(side_view(before)[0] == level_view(before[0]));
        assert(levels_filled(side_view(before)) ==> side_view(before)[0].1.len() > 0 && all_positive(side_view(before)[0].1));
        proof {
            lemma_fill(before[0].orders@, remaining as nat);
        }
        let matched = levels[0].match_order(remaining);
        remaining = remaining - matched;
        if levels[0].is_empty() {
            let _emptied = levels.remove(0);
            assert(side_view(levels@) =~= side_view(before).drop_first());
        } else {
            assert(side_view(levels@) =~= side_view(before).update(0, (before[0].price, levels@[0].orders@)));
            assert(remaining == 0);
        }
        assert forall|i: int| 0 <= i < levels@.len() implies (#[trigger] levels@[i]).wf() by {
            if i > 0 || levels@.len() < before.len() {
            }
        }
    }
    remaining
}

/// Fills a sell of `qty` limited to `limit` against the buy side `levels`,
/// highest price first; emptied levels leave the side. Returns what is left
/// unfilled.
pub fn fill_highest_first<T: Quantified>(levels: &mut Vec<PriceLevel<T>>, qty: u64, limit: u64) -> (rem: u64)
    requires
        side_wf(old(levels)@),
    ensures
        side_wf(final(levels)@),
        (side_view(final(levels)@), rem as nat) == fill_from_highest(side_view(old(levels)@), qty as nat, limit),
{
    let mut remaining = qty;
    while remaining > 0 && levels.len() > 0 && levels[levels.len() - 1].price >= limit
        invariant
            side_wf(levels@),
            fill_from_highest(side_view(old(levels)@), qty as nat, limit)
                == fill_from_highest(side_view(levels@), remaining as nat, limit),
        decreases levels.len(), remaining,
    {
        let ghost before = levels@;
        let last = levels.len() - 1;
        assert(side_view(before)[last as int] == level_view(before[last as int]));
        assert(levels_filled(side_view(before)) ==> side_view(before)[last as int].1.len() > 0
            && all_positive(side_view(before)[last as int].1));
        proof {
            lemma_fill(before[last as int].orders@, remaining as nat);
        }
        let matched = levels[last].match_order(remaining);
        remaining = remaining - matched;
        if levels[last].is_empty() {
            let _emptied = levels.pop();
            assert(side_view(levels@) =~= side_view(before).drop_last());
        } else {
            assert(side_view(levels@) =~= side_view(before).update(
                last as int,
                (before[last as int].price, levels@[last as int].orders@),
            ));
            assert(remaining == 0);
        }
    }
    remaining
}

/// Rests `order` at `price` on the side `levels`: behind the orders already
/// at that price, or alone on a new level put in price order.
pub fn rest_at<T: Quantified>(levels: &mut Vec<PriceLevel<T>>, price: u64, order: T)
    requires
        levels_wf(old(levels)@),
        order.qty() > 0,
    ensures
        levels_wf(final(levels)@),
        side_view(final(levels)@) == rest_order(side_view(old(levels)@), price, order),
{
    let ghost before = side_view(levels@);
    let mut i: usize = 0;
    while i < levels.len() && levels[i].price < price
        invariant
            i <= levels.len(),
            levels@ == old(levels)@,
            forall|j: int| 0 <= j < i ==> levels@[j].price < price,
        decreases levels.len() - i,
    {
        i = i + 1;
    }
    proof {
        lemma_lower_bound(before, price, i as int);
    }
    if i < levels.len() && levels[i].price == price {
        levels[i].add_order(order);
        assert(side_view(levels@) =~= before.update(i as int, (price, before[i as int].1.push(order))));
    } else {
        let mut level = PriceLevel::new(price);
        level.add_order(order);
        levels.insert(i, level);
        assert(side_view(levels@) =~= before.insert(i as int, (price, seq![order])));
        assert forall|a: int, b: int| 0 <= a < b < levels@.len() implies side_view(levels@)[a].0 < side_view(levels@)[b].0 by {
            if a < i && b > i {
                assert(levels@[b] == old(levels)@[b - 1]);
            } else if a == i && b > i {
                assert(levels@[b] == old(levels)@[b - 1]);
            } else if a > i {
                assert(levels@[a] == old(levels)@[a - 1]);
                assert(levels@[b] == old(levels)@[b - 1]);
            }
        }
    }
}

pub proof fn lemma_count_orders_take<T>(side: Seq<(u64, Seq<T>)>, i: int)
    requires
        0 <= i < side.len(),
    ensures
        count_orders(side.take(i + 1)) == count_orders(side.take(i)) + side[i].1.len(),
        count_orders(side.take(i + 1)) <= count_orders(side),
    decreases side.len(),
{
    assert(side.take(i + 1).drop_last() =~= side.take(i));
    if i + 1 < side.len() {
        lemma_count_orders_take(side.drop_last(), i);
        assert(side.drop_last().take(i + 1) =~= side.take(i + 1));
    } else {
        assert(side.take(i + 1) =~= side);
    }
}

pub proof fn lemma_count_orders_bound<T>(side: Seq<(u64, Seq<T>)>)
    requires
        side.len() <= usize::MAX,
        forall|i: int| 0 <= i < side.len() ==> #[trigger] side[i].1.len() <= usize::MAX,
    ensures
        count_orders(side) <= side.len() * usize::MAX,
    decreases side.len(),
{
    if side.len() > 0 {
        assert forall|i: int| 0 <= i < side.drop_last().len() implies #[trigger] side.drop_last()[i].1.len() <= usize::MAX by {
            assert(side.drop_last()[i] == side[i]);
        }
        lemma_count_orders_bound(side.drop_last());
        assert(side.len() * usize::MAX == (side.len() - 1) * usize::MAX + usize::MAX) by (nonlinear_arith)
            requires side.len() > 0;
    }
}

/// Number of orders resting on a side, counted wide enough never to
/// overflow.
pub fn count_resting_wide<T>(levels: &Vec<PriceLevel<T>>) -> (n: u128)
    ensures
        n == count_orders(side_view(levels@)),
{
    let ghost side = side_view(levels@);
    let len = levels.len();
    proof {
        lemma_side_view_len(levels@);
        assert(side.len() == len);
        assert forall|i: int| 0 <= i < side.len() implies #[trigger] side[i].1.len() <= usize::MAX by {
            assert(side[i] == level_view(levels@[i]));
            assert(levels@[i].orders.len() == levels@[i].orders@.len());
        }
        lemma_count_orders_bound(side);
        assert(side.len() * usize::MAX <= usize::MAX * usize::MAX) by (nonlinear_arith)
            requires side.len() <= usize::MAX;
        assert(usize::MAX * usize::MAX <= 0xffff_ffff_ffff_ffff * 0xffff_ffff_ffff_ffff) by (nonlinear_arith)
            requires usize::MAX <= 0xffff_ffff_ffff_ffff;
    }
    let mut n: u128 = 0;
    let mut i: usize = 0;
    while i < levels.len()
        invariant
            i <= levels.len(),
            side == side_view(levels@),
            count_orders(side) <= u128::MAX,
            n == count_orders(side.take(i as int)),
        decreases levels.len() - i,
    {
        proof {
            lemma_count_orders_take(side, i as int);
        }
        assert(side[i as int] == level_view(levels@[i as int]));
        n = n + levels[i].orders.len() as u128;
        i = i + 1;
    }
    assert(side.take(i as int) =~= side);
    n
}

/// Number of orders resting on the side `levels`.
pub fn count_resting<T>(levels: &Vec<PriceLevel<T>>) -> (n: usize)
    requires
        count_orders(side_view(levels@)) <= usize::MAX,
    ensures
        n == count_orders(side_view(levels@)),
{
    let ghost side = side_view(levels@);
    let mut n: usize = 0;
    let mut i: usize = 0;
    while i < levels.len()
        invariant
            i <= levels.len(),
            side == side_view(levels@),
            count_orders(side) <= usize::MAX,
            n == count_orders(side.take(i as int)),
        decreases levels.len() - i,
    {
        proof {
            lemma_count_orders_take(side, i as int);
        }
        assert(side[i as int] == level_view(levels@[i as int]));
        n = n + levels[i].orders.len();
        i = i + 1;
    }
    assert(side.take(i as int) =~= side);
    n
}


/// Filling from the lowest price leaves every order at its own price's level.
pub proof fn lemma_fill_from_lowest_priced<T: Quantified>(side: Seq<(u64, Seq<T>)>, qty: nat, limit: u64)
    requires
        prices_match(side),
    ensures
        prices_match(fill_from_lowest(side, qty, limit).0),
    decreases side.len(),
{
    if qty == 0 || side.len() == 0 || side[0].0 > limit {
    } else {
        let f = fill(side[0].1, qty);
        lemma_fill_priced(side[0].1, qty, side[0].0);
        if f.0.len() == 0 {
            let rest = side.drop_first();
            assert forall|i: int| 0 <= i < rest.len() implies all_priced(#[trigger] rest[i].1, rest[i].0) by {
                assert(rest[i] == side[i + 1]);
            }
            lemma_fill_from_lowest_priced(rest, (qty - f.1) as nat, limit);
        } else {
            let r = side.update(0, (side[0].0, f.0));
            assert forall|i: int| 0 <= i < r.len() implies all_priced(#[trigger] r[i].1, r[i].0) by {
                if i > 0 {
                    assert(r[i] == side[i]);
                }
            }
        }
    }
}

/// Filling from the highest price leaves every order at its own price's level.
pub proof fn lemma_fill_from_highest_priced<T: Quantified>(side: Seq<(u64, Seq<T>)>, qty: nat, limit: u64)
    requires
        prices_match(side),
    ensures
        prices_match(fill_from_highest(side, qty, limit).0),
    decreases side.len(),
{
    if qty == 0 || side.len() == 0 || side.last().0 < limit {
    } else {
        let n = side.len() - 1;
        let f = fill(side[n].1, qty);
        lemma_fill_priced(side[n].1, qty, side[n].0);
        if f.0.len() == 0 {
            let rest = side.drop_last();
            assert forall|i: int| 0 <= i < rest.len() implies all_priced(#[trigger] rest[i].1, rest[i].0) by {
                assert(rest[i] == side[i]);
            }
            lemma_fill_from_highest_priced(rest, (qty - f.1) as nat, limit);
        } else {
            let r = side.update(n, (side[n].0, f.0));
            assert forall|i: int| 0 <= i < r.len() implies all_priced(#[trigger] r[i].1, r[i].0) by {
                if i < n {
                    assert(r[i] == side[i]);
                }
            }
        }
    }
}

/// Resting an order at the price it was placed at keeps every order at its
/// own price's level.
pub proof fn lemma_rest_order_priced<T: Quantified>(side: Seq<(u64, Seq<T>)>, price: u64, order: T)
    requires
        sorted_prices(side),
        prices_match(side),
        order.price_of() == price,
    ensures
        prices_match(rest_order(side, price, order)),
{
    lemma_lower_bound_props(side, price);
    let i = lower_bound(side, price) as int;
    let r = rest_order(side, price, order);
    if i < side.len() && side[i].0 == price {
        assert forall|k: int| 0 <= k < r.len() implies all_priced(#[trigger] r[k].1, r[k].0) by {
            if k == i {
                assert(all_priced(side[i].1, side[i].0));
                assert forall|m: int| 0 <= m < r[k].1.len() implies #[trigger] r[k].1[m].price_of() == r[k].0 by {
                    if m < side[i].1.len() {
                        assert(r[k].1[m] == side[i].1[m]);
                    }
                }
            } else {
                assert(r[k] == side[k]);
            }
        }
    } else {
        assert forall|k: int| 0 <= k < r.len() implies all_priced(#[trigger] r[k].1, r[k].0) by {
            if k < i {
                assert(r[k] == side[k]);
            } else if k > i {
                assert(r[k] == side[k - 1]);
            }
        }
    }
}

} // verus!
