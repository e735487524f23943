//! The limit order book: bids and asks by price level, and a flat index from
//! order identifier to resting order.

use crate::decimal::Decimal;
use crate::levels::{pull_order, rest_order, side_count, side_has};
use crate::limit::Limit;
use crate::order::{BookError, Order, OrderType, OrderView};
use crate::queue::{queue_has, queue_position, LevelView};

use crate::side::{lemma_rests_at, lemma_rests_where, pull, rest, rest_rejection, rests, side_view, side_wf, with_order, without_order};
use std::collections::HashMap;
use vstd::prelude::*;

verus! {

/// The book as the contracts see it: the levels of each side in ascending
/// order of price.
pub struct BookView {
    pub bids: Seq<LevelView>,
    pub asks: Seq<LevelView>,
}

/// The price on the side at which an order with this identifier rests.
pub open spec fn price_of(levels: Seq<LevelView>, id: u64) -> int {
    levels[choose|k: int| 0 <= k < levels.len() && queue_has((#[trigger] levels[k]).orders, id)].price
}

impl BookView {
    /// Whether an order with this identifier rests in the book.
    pub open spec fn has(self, id: u64) -> bool {
        side_has(self.bids, id) || side_has(self.asks, id)
    }

    /// The side that orders of this type rest on.
    pub open spec fn side(self, side: OrderType) -> Seq<LevelView> {
        match side {
            OrderType::Bid => self.bids,
            OrderType::Ask => self.asks,
        }
    }

    /// The book with `levels` in place of one of its sides.
    pub open spec fn with_side(self, side: OrderType, levels: Seq<LevelView>) -> BookView {
        match side {
            OrderType::Bid => BookView { bids: levels, asks: self.asks },
            OrderType::Ask => BookView { bids: self.bids, asks: levels },
        }
    }

    /// The book after `o` has come to rest on its side.
    pub open spec fn rest(self, o: OrderView) -> BookView {
        self.with_side(o.order_type, rest_order(self.side(o.order_type), o))
    }

    /// The book after the order with this identifier has been cancelled.
    pub open spec fn cancel(self, id: u64) -> BookView {
        if side_has(self.bids, id) {
            BookView { bids: pull_order(self.bids, price_of(self.bids, id), id), asks: self.asks }
        } else if side_has(self.asks, id) {
            BookView { bids: self.bids, asks: pull_order(self.asks, price_of(self.asks, id), id) }
        } else {
            self
        }
    }
}

/// The index holds exactly the resting orders of the two sides, each under
/// its own identifier.
pub open spec fn indexed(index: Map<u64, Order>, a: Seq<Limit>, b: Seq<Limit>) -> bool {
    &&& forall|o: Order|
        #![trigger rests(a, o)]
        #![trigger rests(b, o)]
        rests(a, o) || rests(b, o) ==> index.contains_key(o.exchange_id) && index[o.exchange_id]
            == o
    &&& forall|id: u64| #[trigger]
        index.contains_key(id) ==> index[id].exchange_id == id && (rests(a, index[id]) || rests(
            b,
            index[id],
        ))
}

/// The price of the best level of a side, if the side has a level.
pub open spec fn top_price(levels: Seq<Limit>, from_low: bool) -> Option<Decimal> {
    if levels.len() == 0 {
        None
    } else if from_low {
        Some(levels[0].limit_price)
    } else {
        Some(levels[levels.len() - 1].limit_price)
    }
}

/// An order with this identifier on the side is one of the orders that rest
/// there.
pub proof fn lemma_side_has_witness(levels: Seq<Limit>, id: u64) -> (o: Order)
    requires
        side_has(side_view(levels), id),
    ensures
        rests(levels, o),
        o.exchange_id == id,
{
    let v = side_view(levels);
    let k = choose|k: int| 0 <= k < v.len() && queue_has((#[trigger] v[k]).orders, id);
    let j = queue_position(v[k].orders, id);
    assert(v[k].orders[j] == levels[k].orders@[j]@);
    lemma_rests_at(levels, k, j);
    levels[k].orders@[j]
}

/// In an indexed book an identifier rests at one price only.
pub proof fn lemma_price_of(
    index: Map<u64, Order>,
    levels: Seq<Limit>,
    other: Seq<Limit>,
    side: OrderType,
    o: Order,
)
    requires
        indexed(index, levels, other) || indexed(index, other, levels),
        side_wf(levels, side),
        rests(levels, o),
    ensures
        side_has(side_view(levels), o.exchange_id),
        price_of(side_view(levels), o.exchange_id) == o.limit_price@,
{
    let v = side_view(levels);
    let id = o.exchange_id;
    lemma_rests_where(levels, side, o);
    let k = choose|k: int| 0 <= k < v.len() && queue_has((#[trigger] v[k]).orders, id);
    let j = queue_position(v[k].orders, id);
    assert(v[k].orders[j] == levels[k].orders@[j]@);
    lemma_rests_at(levels, k, j);
    let p = levels[k].orders@[j];
    assert(rests(levels, p));
    assert(index[id] == p);
    assert(index[id] == o);
    assert(v[k].ok());
}

/// A single-instrument limit order book.
///
/// `bids` and `asks` hold the price levels of each side in ascending order of
/// price: the best bid is the last of `bids`, the best ask the first of
/// `asks`. `orders` maps each resting order's identifier to a copy of the
/// order. `highest_bid` and `lowest_ask` are the prices of the best levels.
#[derive(Debug)]
pub struct LimitOrderBook {
    pub bids: Vec<Limit>,
    pub asks: Vec<Limit>,
    pub orders: HashMap<u64, Order>,
    pub lowest_ask: Option<Decimal>,
    pub highest_bid: Option<Decimal>,
}

impl View for LimitOrderBook {
    type V = BookView;

    open spec fn view(&self) -> BookView {
        BookView { bids: side_view(self.bids@), asks: side_view(self.asks@) }
    }
}

impl LimitOrderBook {
    /// Both sides are well formed, the index holds exactly the resting
    /// orders, and the best prices are those of the sides.
    pub open spec fn wf(&self) -> bool {
        &&& side_wf(self.bids@, OrderType::Bid)
        &&& side_wf(self.asks@, OrderType::Ask)
        &&& indexed(self.orders@, self.bids@, self.asks@)
        &&& self.orders@.len() == side_count(side_view(self.bids@)) + side_count(
            side_view(self.asks@),
        )
        &&& self.highest_bid == top_price(self.bids@, false)
        &&& self.lowest_ask == top_price(self.asks@, true)
    }

    /// Nothing of the book differs from `other`.
    pub open spec fn same_as(&self, other: &LimitOrderBook) -> bool {
        &&& self.bids@ == other.bids@
        &&& self.asks@ == other.asks@
        &&& self.orders@ == other.orders@
        &&& self.highest_bid == other.highest_bid
        &&& self.lowest_ask == other.lowest_ask
    }

    /// The levels that orders of this type rest on.
    pub open spec fn side_levels(&self, side: OrderType) -> Seq<Limit> {
        match side {
            OrderType::Bid => self.bids@,
            OrderType::Ask => self.asks@,
        }
    }

    /// Why the book refuses to let `order` rest, if it does: its identifier
    /// rests in the book already, its size is not positive, or a total of
    /// its level could not be held exactly.
    pub open spec fn add_rejection(&self, order: Order) -> Option<BookError> {
        if self.orders@.contains_key(order.exchange_id) {
            Some(BookError::DuplicateOrderId)
        } else {
            rest_rejection(self.side_levels(order.order_type), order)
        }
    }

    /// An identifier is in the index exactly when an order with it rests in
    /// the book.
    pub proof fn lemma_index_has(&self, id: u64)
        requires
            self.wf(),
        ensures
            self.orders@.contains_key(id) == self@.has(id),
            self.orders@.contains_key(id) ==> (match self.orders@[id].order_type {
                OrderType::Bid => rests(self.bids@, self.orders@[id]) && !side_has(self@.asks, id),
                OrderType::Ask => rests(self.asks@, self.orders@[id]) && !side_has(self@.bids, id),
            }),
    {
        if side_has(self@.bids, id) {
            let o = lemma_side_has_witness(self.bids@, id);
            lemma_rests_where(self.bids@, OrderType::Bid, o);
        }
        if side_has(self@.asks, id) {
            let o = lemma_side_has_witness(self.asks@, id);
            lemma_rests_where(self.asks@, OrderType::Ask, o);
        }
        if self.orders@.contains_key(id) {
            let o = self.orders@[id];
            if rests(self.bids@, o) {
                lemma_rests_where(self.bids@, OrderType::Bid, o);
            }
            if rests(self.asks@, o) {
                lemma_rests_where(self.asks@, OrderType::Ask, o);
            }
        }
    }

    /// An empty book.
    pub fn new() -> (r: LimitOrderBook)
        ensures
            r.wf(),
            r.bids@.len() == 0,
            r.asks@.len() == 0,
            r.orders@ == Map::<u64, Order>::empty(),
            r.highest_bid is None,
            r.lowest_ask is None,
    {
        let r = LimitOrderBook {
            bids: Vec::new(),
            asks: Vec::new(),
            orders: HashMap::new(),
            lowest_ask: None,
            highest_bid: None,
        };
        proof {
            assert(side_view(r.bids@) =~= Seq::empty());
            assert(side_view(r.asks@) =~= Seq::empty());
            assert(r.orders@.len() == 0);
        }
        r
    }

    /// Sets the best prices from the sides.
    pub(crate) fn refresh_top(&mut self)
        ensures
            final(self).bids == old(self).bids,
            final(self).asks == old(self).asks,
            final(self).orders == old(self).orders,
            final(self).highest_bid == top_price(final(self).bids@, false),
            final(self).lowest_ask == top_price(final(self).asks@, true),
    {
        self.highest_bid = if self.bids.len() > 0 {
            Some(self.bids[self.bids.len() - 1].limit_price)
        } else {
            None
        };
        self.lowest_ask = if self.asks.len() > 0 {
            Some(self.asks[0].limit_price)
        } else {
            None
        };
    }

    /// Lets `order` rest in the book without matching it.
    ///
    /// The order joins the level at its price on its side, which is created
    /// where it is missing, and the index. An order whose identifier already
    /// rests in the book is refused, and so is one that the book cannot hold;
    /// a refused order changes nothing.
    pub fn add_order(&mut self, order: Order) -> (r: Result<(), BookError>)
        requires
            old(self).wf(),
        ensures
            final(self).wf(),
            match r {
                Ok(_) => {
                    &&& old(self).add_rejection(order) is None
                    &&& final(self)@ == old(self)@.rest(order@)
                    &&& final(self).orders@ == old(self).orders@.insert(order.exchange_id, order)
                    &&& with_order(
                        old(self).side_levels(order.order_type),
                        final(self).side_levels(order.order_type),
                        order,
                    )
                    &&& final(self).side_levels(crate::matching::opposite(order.order_type)) == old(
                        self,
                    ).side_levels(crate::matching::opposite(order.order_type))
                },
                Err(e) => old(self).add_rejection(order) == Some(e) && final(self).same_as(
                    old(self),
                ),
            },
    {
        broadcast use vstd::std_specs::hash::group_hash_axioms;

        if self.orders.contains_key(&order.exchange_id) {
            return Err(BookError::DuplicateOrderId);
        }
        let id: u64 = order.exchange_id;
        let copy = order.clone();
        let ghost before = *self;
        proof {
            self.lemma_index_has(id);
        }
        let r = match order.order_type {
            OrderType::Bid => rest(&mut self.bids, order),
            OrderType::Ask => rest(&mut self.asks, order),
        };
        match r {
            Ok(_) => {
                self.orders.insert(id, copy);
                self.refresh_top();
                proof {
                    let index = self.orders@;
                    assert forall|o: Order|
                        #![trigger rests(self.bids@, o)]
                        #![trigger rests(self.asks@, o)]
                        rests(self.bids@, o) || rests(self.asks@, o) implies index.contains_key(
                        o.exchange_id,
                    ) && index[o.exchange_id] == o by {
                        if o != order {
                            assert(rests(before.bids@, o) || rests(before.asks@, o));
                        }
                    }
                    assert forall|x: u64| #[trigger] index.contains_key(x) implies index[x].exchange_id
                        == x && (rests(self.bids@, index[x]) || rests(self.asks@, index[x])) by {
                        if x != id {
                            assert(before.orders@.contains_key(x));
                            let o = before.orders@[x];
                            assert(rests(before.bids@, o) || rests(before.asks@, o));
                        } else {
                            assert(rests(self.bids@, order) || rests(self.asks@, order));
                        }
                    }
                }
                Ok(())
            },
            Err(e) => Err(e),
        }
    }

    /// Cancels the resting order with this identifier and returns it.
    ///
    /// The order leaves its level and the index, and its level leaves the
    /// book if it was the last one there. Where no resting order has the
    /// identifier, nothing changes.
    pub fn remove_order(&mut self, order_id: u64) -> (r: Result<Order, BookError>)
        requires
            old(self).wf(),
        ensures
            final(self).wf(),
            match r {
                Ok(o) => {
                    let own = old(self).side_levels(o.order_type);
                    &&& old(self).orders@.contains_key(order_id)
                    &&& o == old(self).orders@[order_id]
                    &&& final(self)@ == old(self)@.cancel(order_id)
                    &&& final(self).orders@ == old(self).orders@.remove(order_id)
                    &&& without_order(
                        own,
                        final(self).side_levels(o.order_type),
                        crate::levels::rank(side_view(own), o.limit_price@),
                        queue_position(
                            crate::levels::orders_at(side_view(own), o.limit_price@),
                            order_id,
                        ),
                    )
                    &&& final(self).side_levels(crate::matching::opposite(o.order_type)) == old(
                        self,
                    ).side_levels(crate::matching::opposite(o.order_type))
                },
                Err(e) => {
                    &&& e == BookError::OrderNotFound
                    &&& !old(self).orders@.contains_key(order_id)
                    &&& final(self).same_as(old(self))
                },
            },
    {
        broadcast use vstd::std_specs::hash::group_hash_axioms;

        let (side, price): (OrderType, Decimal) = match self.orders.get(&order_id) {
            Some(o) => (o.order_type, o.limit_price),
            None => {
                return Err(BookError::OrderNotFound);
            },
        };
        let ghost before = *self;
        let ghost resting = self.orders@[order_id];
        proof {
            self.lemma_index_has(order_id);
            match side {
                OrderType::Bid => {
                    lemma_rests_where(self.bids@, side, resting);
                    lemma_price_of(self.orders@, self.bids@, self.asks@, side, resting);
                },
                OrderType::Ask => {
                    lemma_rests_where(self.asks@, side, resting);
                    lemma_price_of(self.orders@, self.asks@, self.bids@, side, resting);
                },
            }
        }
        let r = match side {
            OrderType::Bid => pull(&mut self.bids, OrderType::Bid, &price, order_id),
            OrderType::Ask => pull(&mut self.asks, OrderType::Ask, &price, order_id),
        };
        let removed = r.unwrap();
        self.orders.remove(&order_id);
        self.refresh_top();
        proof {
            let index = self.orders@;
            assert(rests(before.bids@, removed) || rests(before.asks@, removed));
            assert(before.orders@[removed.exchange_id] == removed);
            assert forall|o: Order|
                #![trigger rests(self.bids@, o)]
                #![trigger rests(self.asks@, o)]
                rests(self.bids@, o) || rests(self.asks@, o) implies index.contains_key(
                o.exchange_id,
            ) && index[o.exchange_id] == o by {
                assert(rests(before.bids@, o) || rests(before.asks@, o));
                if o == removed {
                    match side {
                        OrderType::Bid => {
                            lemma_rests_where(before.asks@, OrderType::Ask, o);
                        },
                        OrderType::Ask => {
                            lemma_rests_where(before.bids@, OrderType::Bid, o);
                        },
                    }
                }
            }
            assert forall|x: u64| #[trigger] index.contains_key(x) implies index[x].exchange_id == x
                && (rests(self.bids@, index[x]) || rests(self.asks@, index[x])) by {
                assert(before.orders@.contains_key(x));
                let o = before.orders@[x];
                assert(rests(before.bids@, o) || rests(before.asks@, o));
            }
        }
        Ok(removed)
    }
}

} // verus!
