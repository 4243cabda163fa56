//! A price level: the resting orders at one price, oldest first, and how an
//! incoming quantity is filled against them.

use vstd::prelude::*;
use std::collections::VecDeque;
use crate::models::Order;

verus! {

broadcast use vstd::std_specs::vecdeque::group_vec_dequeue_axioms;

/// An order that carries a remaining quantity that matching reduces.
pub trait Quantified: Sized {
    /// The remaining quantity.
    spec fn qty(&self) -> u64;

    /// The same order with its remaining quantity set to `q`.
    spec fn with_qty(&self, q: u64) -> Self;

    /// The price the order was placed at.
    spec fn price_of(&self) -> u64;

    proof fn lemma_with_qty(&self, q: u64)
        ensures
            self.with_qty(q).qty() == q,
            self.with_qty(q).price_of() == self.price_of(),
    ;

    fn quantity(&self) -> (q: u64)
        ensures
            q == self.qty(),
    ;

    fn set_quantity(&mut self, q: u64)
        ensures
            *final(self) == old(self).with_qty(q),
    ;
}

impl Quantified for Order {
    open spec fn qty(&self) -> u64 {
        self.quantity
    }

    open spec fn with_qty(&self, q: u64) -> Self {
        Order { quantity: q, ..*self }
    }

    open spec fn price_of(&self) -> u64 {
        self.price
    }

    proof fn lemma_with_qty(&self, q: u64) {
    }

    fn quantity(&self) -> (q: u64) {
        self.quantity
    }

    fn set_quantity(&mut self, q: u64) {
        self.quantity = q;
    }
}

/// Total remaining quantity of a run of orders.
pub open spec fn sum_qty<T: Quantified>(s: Seq<T>) -> nat
    decreases s.len(),
{
    if s.len() == 0 {
        0
    } else {
        sum_qty(s.drop_last()) + s.last().qty() as nat
    }
}

/// Every order of the run still has something left.
pub open spec fn all_positive<T: Quantified>(s: Seq<T>) -> bool {
    forall|i: int| 0 <= i < s.len() ==> #[trigger] s[i].qty() > 0
}

/// Fills `qty` against `orders`, oldest first: each order in turn gives up
/// what it has, up to what is still wanted. Gives the orders that remain and
/// the quantity that was filled.
pub open spec fn fill<T: Quantified>(orders: Seq<T>, qty: nat) -> (Seq<T>, nat)
    decreases orders.len(),
{
    if qty == 0 || orders.len() == 0 {
        (orders, 0)
    } else if orders[0].qty() <= qty {
        let r = fill(orders.drop_first(), (qty - orders[0].qty()) as nat);
        (r.0, r.1 + orders[0].qty() as nat)
    } else {
        (orders.update(0, orders[0].with_qty((orders[0].qty() - qty) as u64)), qty)
    }
}

pub proof fn lemma_sum_qty_push<T: Quantified>(s: Seq<T>, x: T)
    ensures
        sum_qty(s.push(x)) == sum_qty(s) + x.qty(),
{
    assert(s.push(x).drop_last() =~= s);
}

pub proof fn lemma_sum_qty_first<T: Quantified>(s: Seq<T>)
    requires
        s.len() > 0,
    ensures
        sum_qty(s) == s[0].qty() + sum_qty(s.drop_first()),
    decreases s.len(),
{
    if s.len() > 1 {
        lemma_sum_qty_first(s.drop_last());
        assert(s.drop_last().drop_first() =~= s.drop_first().drop_last());
    } else {
        assert(s.drop_first() =~= Seq::<T>::empty());
        assert(s.drop_last() =~= Seq::<T>::empty());
    }
}

pub proof fn lemma_sum_qty_update_first<T: Quantified>(s: Seq<T>, x: T)
    requires
        s.len() > 0,
    ensures
        sum_qty(s.update(0, x)) + s[0].qty() == sum_qty(s) + x.qty(),
{
    lemma_sum_qty_first(s);
    lemma_sum_qty_first(s.update(0, x));
    assert(s.update(0, x).drop_first() =~= s.drop_first());
}

/// What filling does: it takes exactly the filled quantity out of the run,
/// fills no more than was wanted, fills all that was wanted or empties the
/// run, and leaves every remaining order with something.
pub proof fn lemma_fill<T: Quantified>(orders: Seq<T>, qty: nat)
    requires
        all_positive(orders),
    ensures
        fill(orders, qty).1 <= qty,
        sum_qty(fill(orders, qty).0) + fill(orders, qty).1 == sum_qty(orders),
        fill(orders, qty).1 == qty || fill(orders, qty).0.len() == 0,
        fill(orders, qty).0.len() <= orders.len(),
        all_positive(fill(orders, qty).0),
        qty > 0 && orders.len() > 0 ==> fill(orders, qty).1 > 0,
    decreases orders.len(),
{
    if qty == 0 || orders.len() == 0 {
    } else if orders[0].qty() <= qty {
        lemma_sum_qty_first(orders);
        lemma_fill(orders.drop_first(), (qty - orders[0].qty()) as nat);
    } else {
        let x = orders[0].with_qty((orders[0].qty() - qty) as u64);
        orders[0].lemma_with_qty((orders[0].qty() - qty) as u64);
        lemma_sum_qty_update_first(orders, x);
    }
}

/// Filling keeps time priority: it takes whole orders from the front of the
/// run, oldest first, and then at most part of the next one, which keeps its
/// place at the front. What is left is the run without its first `k` orders
/// (those filled whole), with its new first order possibly reduced; what was
/// filled is the quantity of those `k` orders plus what the next one gave up.
pub proof fn lemma_fill_time_priority<T: Quantified>(orders: Seq<T>, qty: nat)
    ensures
        ({
            let (r, t) = fill(orders, qty);
            let k = orders.len() - r.len();
            &&& r.len() <= orders.len()
            &&& forall|i: int| 0 < i < r.len() ==> #[trigger] r[i] == orders[k + i]
            &&& r.len() > 0 ==> (r[0] == orders[k] || r[0] == orders[k].with_qty(r[0].qty()))
                && r[0].qty() <= orders[k].qty()
            &&& t == sum_qty(orders.take(k)) + if r.len() > 0 { orders[k].qty() - r[0].qty() } else { 0int }
        }),
    decreases orders.len(),
{
    let (r, t) = fill(orders, qty);
    if qty == 0 || orders.len() == 0 {
        assert(orders.take(0) =~= Seq::<T>::empty());
    } else if orders[0].qty() <= qty {
        let rest = orders.drop_first();
        let q2 = (qty - orders[0].qty()) as nat;
        lemma_fill_time_priority(rest, q2);
        let k = orders.len() - r.len();
        let k2 = rest.len() - r.len();
        assert(k == k2 + 1);
        assert forall|i: int| 0 < i < r.len() implies #[trigger] r[i] == orders[k + i] by {
            assert(r[i] == rest[k2 + i]);
        }
        lemma_sum_qty_first(orders.take(k));
        assert(orders.take(k).drop_first() =~= rest.take(k2));
        assert(orders.take(k)[0] == orders[0]);
    } else {
        orders[0].lemma_with_qty((orders[0].qty() - qty) as u64);
        assert(orders.take(0) =~= Seq::<T>::empty());
        assert forall|i: int| 0 < i < r.len() implies #[trigger] r[i] == orders[0 + i] by {}
    }
}

/// Every order of the run was placed at price `p`.
pub open spec fn all_priced<T: Quantified>(s: Seq<T>, p: u64) -> bool {
    forall|i: int| 0 <= i < s.len() ==> #[trigger] s[i].price_of() == p
}

/// Filling keeps what is left of a run at the price its orders were placed
/// at.
pub proof fn lemma_fill_priced<T: Quantified>(orders: Seq<T>, qty: nat, p: u64)
    requires
        all_priced(orders, p),
    ensures
        all_priced(fill(orders, qty).0, p),
    decreases orders.len(),
{
    if qty == 0 || orders.len() == 0 {
    } else if orders[0].qty() <= qty {
        let rest = orders.drop_first();
        assert forall|i: int| 0 <= i < rest.len() implies #[trigger] rest[i].price_of() == p by {
            assert(rest[i] == orders[i + 1]);
        }
        lemma_fill_priced(rest, (qty - orders[0].qty()) as nat, p);
    } else {
        orders[0].lemma_with_qty((orders[0].qty() - qty) as u64);
    }
}

/// The resting orders at one price, oldest first (a queue), with their total
/// quantity.
#[derive(Debug)]
pub struct PriceLevel<T> {
    pub price: u64,
    pub orders: VecDeque<T>,
    pub total_quantity: u128,
}

impl<T: Quantified> PriceLevel<T> {
    /// The level is consistent: its total is the sum of what its orders have
    /// left, and every order has something left.
    pub open spec fn wf(&self) -> bool {
        &&& self.total_quantity == sum_qty(self.orders@)
        &&& all_positive(self.orders@)
    }

    /// An empty level at `price`.
    pub fn new(price: u64) -> (r: Self)
        ensures
            r.wf(),
            r.price == price,
            r.orders@ == Seq::<T>::empty(),
    {
        PriceLevel { price, orders: VecDeque::new(), total_quantity: 0 }
    }

    /// Appends an order behind the others.
    pub fn add_order(&mut self, order: T)
        requires
            old(self).wf(),
            order.qty() > 0,
        ensures
            final(self).wf(),
            final(self).price == old(self).price,
            final(self).orders@ == old(self).orders@.push(order),
    {
        proof {
            lemma_sum_qty_push(self.orders@, order);
        }
        let q = order.quantity();
        self.orders.push_back(order);
        let len = self.orders.len();
        proof {
            lemma_sum_qty_bound(self.orders@);
            let n = self.orders@.len();
            assert(n == len);
            assert(n * 0xffff_ffff_ffff_ffff <= 0xffff_ffff_ffff_ffff * 0xffff_ffff_ffff_ffff)
                by (nonlinear_arith)
                requires n <= 0xffff_ffff_ffff_ffff;
        }
        self.total_quantity = self.total_quantity + q as u128;
    }

    pub fn is_empty(&self) -> (r: bool)
        ensures
            r == (self.orders@.len() == 0),
    {
        self.orders.len() == 0
    }

    /// Fills `incoming_quantity` against the level, oldest order first;
    /// orders that are filled completely leave it. Returns the quantity filled.
    pub fn match_order(&mut self, incoming_quantity: u64) -> (matched: u64)
        requires
            old(self).wf(),
        ensures
            final(self).wf(),
            final(self).price == old(self).price,
            (final(self).orders@, matched as nat) == fill(old(self).orders@, incoming_quantity as nat),
    {
        let mut matched: u64 = 0;
        let mut remaining: u64 = incoming_quantity;
        proof {
            lemma_fill(self.orders@, incoming_quantity as nat);
        }
        while remaining > 0 && self.orders.len() > 0
            invariant
                self.wf(),
                self.price == old(self).price,
                matched + remaining == incoming_quantity,
                fill(old(self).orders@, incoming_quantity as nat) == (
                    fill(self.orders@, remaining as nat).0,
                    (matched + fill(self.orders@, remaining as nat).1) as nat,
                ),
            decreases self.orders@.len() + remaining,
        {
            let front = self.orders[0].quantity();
            let match_qty = if remaining < front { remaining } else { front };
            proof {
                lemma_sum_qty_first(self.orders@);
            }
            matched = matched + match_qty;
            remaining = remaining - match_qty;
            self.total_quantity = self.total_quantity - match_qty as u128;
            if front - match_qty == 0 {
                let ghost before = self.orders@;
                let _filled = self.orders.pop_front();
                assert(self.orders@ =~= before.drop_first());
            } else {
                let ghost before = self.orders@;
                if let Some(mut first) = self.orders.pop_front() {
                    first.set_quantity(front - match_qty);
                    self.orders.push_front(first);
                }
                proof {
                    before[0].lemma_with_qty((front - match_qty) as u64);
                    lemma_sum_qty_update_first(before, before[0].with_qty((front - match_qty) as u64));
                    assert(self.orders@ =~= before.update(0, before[0].with_qty((front - match_qty) as u64)));
                    assert(remaining == 0);
                }
            }
        }
        matched
    }
}

/// The sum of a run's quantities fits the bound that its length and the
/// width of a quantity give it.
pub proof fn lemma_sum_qty_bound<T: Quantified>(s: Seq<T>)
    ensures
        sum_qty(s) <= s.len() * 0xffff_ffff_ffff_ffff,
    decreases s.len(),
{
    if s.len() > 0 {
        lemma_sum_qty_bound(s.drop_last());
        assert(s.len() * 0xffff_ffff_ffff_ffff == (s.len() - 1) * 0xffff_ffff_ffff_ffff
            + 0xffff_ffff_ffff_ffff) by (nonlinear_arith)
            requires s.len() > 0;
    }
}

} // verus!
