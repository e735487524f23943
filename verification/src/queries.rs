//! The read-only market-data queries of the book. None of them changes it.

use crate::book::LimitOrderBook;
use crate::decimal::{unit, Decimal};
use crate::levels::{count_at, depth_at, has_level, notional_at, orders_at, rank};
use crate::limit::{views, Limit};
use crate::order::{Order, OrderType};
use crate::side::{find_level, rests, side_view, side_wf};
use vstd::prelude::*;

verus! {

/// The total size resting on the side at exactly `price`.
fn depth_on(levels: &Vec<Limit>, price: &Decimal) -> (r: Decimal)
    requires
        exists|side: OrderType| side_wf(levels@, side),
    ensures
        r@ == depth_at(side_view(levels@), price@),
{
    let k: usize = find_level(levels, price);
    if k < levels.len() && levels[k].limit_price == *price {
        levels[k].size
    } else {
        Decimal::zero()
    }
}

/// The notional value of the level at exactly `price` as it is written:
/// plain zero where there is no level.
pub open spec fn volume_written(levels: Seq<Limit>, price: int) -> Decimal {
    if has_level(side_view(levels), price) {
        levels[rank(side_view(levels), price)].total_volume
    } else {
        Decimal::zero_value()
    }
}

/// The notional value resting on the side at exactly `price`.
fn volume_on(levels: &Vec<Limit>, price: &Decimal) -> (r: Decimal)
    requires
        exists|side: OrderType| side_wf(levels@, side),
    ensures
        r@ * unit() == notional_at(side_view(levels@), price@),
        r == volume_written(levels@, price@),
{
    let k: usize = find_level(levels, price);
    if k < levels.len() && levels[k].limit_price == *price {
        levels[k].total_volume
    } else {
        Decimal::zero()
    }
}

/// The number of orders resting on the side at exactly `price`.
fn count_on(levels: &Vec<Limit>, price: &Decimal) -> (r: usize)
    requires
        exists|side: OrderType| side_wf(levels@, side),
    ensures
        r == count_at(side_view(levels@), price@),
{
    let k: usize = find_level(levels, price);
    if k < levels.len() && levels[k].limit_price == *price {
        levels[k].orders.len()
    } else {
        0
    }
}

/// Copies of the orders resting on the side at exactly `price`, in time
/// priority.
fn orders_on(levels: &Vec<Limit>, price: &Decimal) -> (r: Vec<Order>)
    requires
        exists|side: OrderType| side_wf(levels@, side),
    ensures
        views(r@) == orders_at(side_view(levels@), price@),
        forall|i: int| 0 <= i < r@.len() ==> rests(levels@, #[trigger] r@[i]),
{
    let mut out: Vec<Order> = Vec::new();
    let k: usize = find_level(levels, price);
    if k < levels.len() && levels[k].limit_price == *price {
        let mut i: usize = 0;
        while i < levels[k as usize].orders.len()
            invariant
                k < levels@.len(),
                i <= levels@[k as int].orders@.len(),
                out@ == levels@[k as int].orders@.subrange(0, i as int),
            decreases levels@[k as int].orders@.len() - i,
        {
            out.push(levels[k].orders[i].clone());
            proof {
                assert(out@ =~= levels@[k as int].orders@.subrange(0, i + 1));
            }
            i = i + 1;
        }
        proof {
            assert(out@ =~= levels@[k as int].orders@);
            assert forall|i: int| 0 <= i < out@.len() implies rests(levels@, #[trigger] out@[i]) by {
                assert(levels@[k as int].orders@.contains(out@[i]));
            }
        }
    } else {
        proof {
            assert(views(out@) =~= Seq::empty());
        }
    }
    out
}

/// The prices of the levels of the side, in ascending order.
fn prices_on(levels: &Vec<Limit>) -> (r: Vec<Decimal>)
    ensures
        r@.len() == levels@.len(),
        forall|i: int| 0 <= i < r@.len() ==> #[trigger] r@[i] == levels@[i].limit_price,
{
    let mut out: Vec<Decimal> = Vec::new();
    let mut i: usize = 0;
    while i < levels.len()
        invariant
            i <= levels@.len(),
            out@.len() == i,
            forall|j: int| 0 <= j < i ==> #[trigger] out@[j] == levels@[j].limit_price,
        decreases levels@.len() - i,
    {
        out.push(levels[i].limit_price);
        i = i + 1;
    }
    out
}

impl LimitOrderBook {
    /// The resting order with this identifier, if there is one.
    pub fn get_order(&self, exchange_id: u64) -> (r: Option<&Order>)
        requires
            self.wf(),
        ensures
            r is Some <==> self@.has(exchange_id),
            r is Some <==> self.orders@.contains_key(exchange_id),
            r matches Some(o) ==> *o == self.orders@[exchange_id] && o.exchange_id == exchange_id
                && (rests(self.bids@, *o) || rests(self.asks@, *o)),
    {
        broadcast use vstd::std_specs::hash::group_hash_axioms;

        proof {
            self.lemma_index_has(exchange_id);
        }
        self.orders.get(&exchange_id)
    }

    /// The total size of the bids at exactly `limit_price`: zero where no bid
    /// rests at that price.
    pub fn get_bid_depth(&self, limit_price: Decimal) -> (r: Decimal)
        requires
            self.wf(),
        ensures
            r@ == depth_at(self@.bids, limit_price@),
    {
        depth_on(&self.bids, &limit_price)
    }

    /// The total size of the asks at exactly `limit_price`: zero where no ask
    /// rests at that price.
    pub fn get_ask_depth(&self, limit_price: Decimal) -> (r: Decimal)
        requires
            self.wf(),
        ensures
            r@ == depth_at(self@.asks, limit_price@),
    {
        depth_on(&self.asks, &limit_price)
    }

    /// The notional value (size times price) of the bids at exactly
    /// `limit_price`: zero where no bid rests at that price. The product of
    /// two views is the view of the product times [`unit`].
    pub fn get_bid_volume(&self, limit_price: Decimal) -> (r: Decimal)
        requires
            self.wf(),
        ensures
            r@ * unit() == notional_at(self@.bids, limit_price@),
    {
        volume_on(&self.bids, &limit_price)
    }

    /// The notional value of the asks at exactly `limit_price`: zero where no
    /// ask rests at that price.
    pub fn get_ask_volume(&self, limit_price: Decimal) -> (r: Decimal)
        requires
            self.wf(),
        ensures
            r@ * unit() == notional_at(self@.asks, limit_price@),
    {
        volume_on(&self.asks, &limit_price)
    }

    /// The number of bids at exactly `limit_price`.
    pub fn get_bid_count(&self, limit_price: Decimal) -> (r: usize)
        requires
            self.wf(),
        ensures
            r == count_at(self@.bids, limit_price@),
    {
        count_on(&self.bids, &limit_price)
    }

    /// The number of asks at exactly `limit_price`.
    pub fn get_ask_count(&self, limit_price: Decimal) -> (r: usize)
        requires
            self.wf(),
        ensures
            r == count_at(self@.asks, limit_price@),
    {
        count_on(&self.asks, &limit_price)
    }

    /// Copies of the bids at exactly `limit_price`, in time priority.
    pub fn get_bid_orders(&self, limit_price: Decimal) -> (r: Vec<Order>)
        requires
            self.wf(),
        ensures
            views(r@) == orders_at(self@.bids, limit_price@),
            forall|i: int| 0 <= i < r@.len() ==> rests(self.bids@, #[trigger] r@[i]),
    {
        orders_on(&self.bids, &limit_price)
    }

    /// Copies of the asks at exactly `limit_price`, in time priority.
    pub fn get_ask_orders(&self, limit_price: Decimal) -> (r: Vec<Order>)
        requires
            self.wf(),
        ensures
            views(r@) == orders_at(self@.asks, limit_price@),
            forall|i: int| 0 <= i < r@.len() ==> rests(self.asks@, #[trigger] r@[i]),
    {
        orders_on(&self.asks, &limit_price)
    }

    /// The highest bid price, or `None` where there is no bid.
    pub fn get_best_bid(&self) -> (r: Option<Decimal>)
        requires
            self.wf(),
        ensures
            r is Some <==> self@.bids.len() > 0,
            r matches Some(p) ==> p@ == self@.bids.last().price && forall|k: int|
                0 <= k < self@.bids.len() ==> (#[trigger] self@.bids[k]).price <= p@,
    {
        proof {
            if self.bids@.len() > 0 {
                let v = self@.bids;
                let n = v.len() - 1;
                assert(v[n] == self.bids@[n]@);
                assert forall|k: int| 0 <= k < v.len() implies (#[trigger] v[k]).price
                    <= v[n].price by {
                    if k < n {
                        assert(v[k].price < v[n].price);
                    }
                }
            }
        }
        self.highest_bid
    }

    /// The lowest ask price, or `None` where there is no ask.
    pub fn get_best_ask(&self) -> (r: Option<Decimal>)
        requires
            self.wf(),
        ensures
            r is Some <==> self@.asks.len() > 0,
            r matches Some(p) ==> p@ == self@.asks.first().price && forall|k: int|
                0 <= k < self@.asks.len() ==> p@ <= (#[trigger] self@.asks[k]).price,
    {
        proof {
            if self.asks@.len() > 0 {
                let v = self@.asks;
                assert(v[0] == self.asks@[0]@);
                assert forall|k: int| 0 <= k < v.len() implies v[0].price <= (
                #[trigger] v[k]).price by {
                    if k > 0 {
                        assert(v[0].price < v[k].price);
                    }
                }
            }
        }
        self.lowest_ask
    }

    /// The lowest ask price less the highest bid price. There is none where
    /// either side is empty, nor where the difference could not be held
    /// exactly.
    pub fn get_spread(&self) -> (r: Option<Decimal>)
        requires
            self.wf(),
        ensures
            self@.bids.len() == 0 || self@.asks.len() == 0 ==> r is None,
            r is Some <==> self.lowest_ask is Some && self.highest_bid is Some
                && self.lowest_ask.unwrap().can_sub(self.highest_bid.unwrap()),
            r matches Some(s) ==> s@ == self@.asks.first().price - self@.bids.last().price,
    {
        proof {
            self.lemma_top();
        }
        match (self.highest_bid, self.lowest_ask) {
            (Some(bid), Some(ask)) => ask.checked_sub(&bid),
            _ => None,
        }
    }

    /// Whether the price half way between the two can be held exactly.
    pub open spec fn mid_exact(ask: Decimal, bid: Decimal) -> bool {
        ask.can_add(bid) && ask.sum_of(bid).can_mul(Decimal::half_value())
    }

    /// The price half way between the highest bid and the lowest ask. There
    /// is none where either side is empty, nor where it could not be held
    /// exactly.
    pub fn get_mid_price(&self) -> (r: Option<Decimal>)
        requires
            self.wf(),
        ensures
            self@.bids.len() == 0 || self@.asks.len() == 0 ==> r is None,
            r is Some <==> self.lowest_ask is Some && self.highest_bid is Some && Self::mid_exact(
                self.lowest_ask.unwrap(),
                self.highest_bid.unwrap(),
            ),
            r matches Some(m) ==> 2 * m@ == self@.asks.first().price + self@.bids.last().price,
    {
        proof {
            self.lemma_top();
        }
        match (self.highest_bid, self.lowest_ask) {
            (Some(bid), Some(ask)) => {
                let total = match ask.checked_add(&bid) {
                    Some(t) => t,
                    None => {
                        return None;
                    },
                };
                let half = Decimal::half();
                let mid = total.checked_mul(&half);
                proof {
                    if mid is Some {
                        let m = mid.unwrap()@;
                        let h = half@;
                        let t = total@;
                        assert(2 * m == t) by (nonlinear_arith)
                            requires
                                m * unit() == t * h,
                                2 * h == unit(),
                                unit() > 0,
                        ;
                    }
                }
                mid
            },
            _ => None,
        }
    }

    /// The bid prices, in ascending order.
    pub fn get_bids(&self) -> (r: Vec<Decimal>)
        requires
            self.wf(),
        ensures
            r@.len() == self@.bids.len(),
            forall|i: int| 0 <= i < r@.len() ==> (#[trigger] r@[i])@ == self@.bids[i].price,
    {
        prices_on(&self.bids)
    }

    /// The ask prices, in ascending order.
    pub fn get_asks(&self) -> (r: Vec<Decimal>)
        requires
            self.wf(),
        ensures
            r@.len() == self@.asks.len(),
            forall|i: int| 0 <= i < r@.len() ==> (#[trigger] r@[i])@ == self@.asks[i].price,
    {
        prices_on(&self.asks)
    }

    /// The notional value of the bids and the asks together at exactly
    /// `limit_price`. There is none where neither side has a level at that
    /// price, nor where the sum could not be held exactly.
    pub fn get_volume_at_price(&self, limit_price: Decimal) -> (r: Option<Decimal>)
        requires
            self.wf(),
        ensures
            r is Some <==> (has_level(self@.bids, limit_price@) || has_level(
                self@.asks,
                limit_price@,
            )) && volume_written(self.bids@, limit_price@).can_add(
                volume_written(self.asks@, limit_price@),
            ),
            r matches Some(v) ==> v@ * unit() == notional_at(self@.bids, limit_price@)
                + notional_at(self@.asks, limit_price@),
    {
        let b: usize = find_level(&self.bids, &limit_price);
        let a: usize = find_level(&self.asks, &limit_price);
        let on_bids: bool = b < self.bids.len() && self.bids[b].limit_price == limit_price;
        let on_asks: bool = a < self.asks.len() && self.asks[a].limit_price == limit_price;
        if !on_bids && !on_asks {
            return None;
        }
        let x = volume_on(&self.bids, &limit_price);
        let y = volume_on(&self.asks, &limit_price);
        let total = x.checked_add(&y);
        proof {
            if total is Some {
                let t = total.unwrap()@;
                assert(t * unit() == x@ * unit() + y@ * unit()) by (nonlinear_arith)
                    requires
                        t == x@ + y@,
                ;
            }
        }
        total
    }

    /// The best prices are those of the best levels.
    pub proof fn lemma_top(&self)
        requires
            self.wf(),
        ensures
            self.highest_bid matches Some(p) ==> p@ == self@.bids.last().price,
            self.lowest_ask matches Some(p) ==> p@ == self@.asks.first().price,
            self.highest_bid is Some <==> self@.bids.len() > 0,
            self.lowest_ask is Some <==> self@.asks.len() > 0,
    {
        if self.bids@.len() > 0 {
            let n = self.bids@.len() - 1;
            assert(self@.bids[n] == self.bids@[n]@);
        }
        if self.asks@.len() > 0 {
            assert(self@.asks[0] == self.asks@[0]@);
        }
    }
}

} // verus!
