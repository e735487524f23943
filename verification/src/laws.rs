//! What holds of the book whatever is done to it.
//!
//! Every operation of the book needs a well-formed book and leaves one
//! behind, so what follows from well-formedness holds after every sequence
//! of operations. The operations state what they do to the view of the book;
//! the laws on views below therefore hold of the operations themselves.

use crate::book::{price_of, BookView, LimitOrderBook};
use crate::levels::{best_index, has_level, lemma_rank, lemma_rank_is, lemma_rank_of_level, marketable, rank, rest_order, run_match, side_count, side_has, side_ok, with_front_reduced, without_front};
use crate::limit::Limit;
use crate::order::{FillView, OrderType, OrderView};
use crate::queue::{arrival_position, enqueue, lemma_arrival_position, lemma_queue_size_bounds, lemma_queue_size_remove, lemma_queue_size_update, queue_has, queue_position, LevelView};
use crate::side::{lemma_rests_where, rests, side_view, side_wf};
use vstd::prelude::*;

verus! {

/// The sum of the order counts of the levels.
pub open spec fn total_order_count(levels: Seq<Limit>) -> int
    decreases levels.len(),
{
    if levels.len() == 0 {
        0
    } else {
        total_order_count(levels.drop_last()) + levels.last().order_count
    }
}

proof fn lemma_total_order_count(levels: Seq<Limit>)
    requires
        forall|k: int| 0 <= k < levels.len() ==> (#[trigger] levels[k]).wf(),
    ensures
        total_order_count(levels) == side_count(side_view(levels)),
    decreases levels.len(),
{
    if levels.len() > 0 {
        let p = levels.drop_last();
        assert forall|k: int| 0 <= k < p.len() implies (#[trigger] p[k]).wf() by {
            assert(p[k] == levels[k]);
        }
        lemma_total_order_count(p);
        assert(side_view(levels).drop_last() =~= side_view(p));
        assert(levels.last() == levels[levels.len() - 1]);
        assert(levels[levels.len() - 1].wf());
        assert(side_view(levels).last().orders.len() == levels.last().orders@.len());
    }
}

/// The index holds as many orders as the levels of both sides count
/// together.
pub proof fn law_index_size(book: &LimitOrderBook)
    requires
        book.wf(),
    ensures
        book.orders@.len() == total_order_count(book.bids@) + total_order_count(book.asks@),
{
    lemma_total_order_count(book.bids@);
    lemma_total_order_count(book.asks@);
}

/// Every level of the book holds at least one order and a positive size.
pub proof fn law_levels_hold_size(book: &LimitOrderBook)
    requires
        book.wf(),
    ensures
        forall|k: int|
            0 <= k < book.bids@.len() ==> (#[trigger] book.bids@[k]).size@ > 0
                && book.bids@[k].order_count > 0,
        forall|k: int|
            0 <= k < book.asks@.len() ==> (#[trigger] book.asks@[k]).size@ > 0
                && book.asks@[k].order_count > 0,
{
    assert forall|k: int| 0 <= k < book.bids@.len() implies (#[trigger] book.bids@[k]).size@ > 0
        && book.bids@[k].order_count > 0 by {
        assert(book@.bids[k] == book.bids@[k]@);
        assert(book@.bids[k].ok());
        lemma_queue_size_bounds(book@.bids[k].orders, book@.bids[k].price);
    }
    assert forall|k: int| 0 <= k < book.asks@.len() implies (#[trigger] book.asks@[k]).size@ > 0
        && book.asks@[k].order_count > 0 by {
        assert(book@.asks[k] == book.asks@[k]@);
        assert(book@.asks[k].ok());
        lemma_queue_size_bounds(book@.asks[k].orders, book@.asks[k].price);
    }
}

/// Every order of the index rests in exactly one level: the level at its
/// price on its side holds it, and no other level of the book holds an order
/// with its identifier.
pub proof fn law_index_reaches_one_level(book: &LimitOrderBook, id: u64)
    requires
        book.wf(),
        book.orders@.contains_key(id),
    ensures
        ({
            let o = book.orders@[id];
            let own = book@.side(o.order_type);
            let k = rank(own, o.limit_price@);
            &&& has_level(own, o.limit_price@)
            &&& queue_has(own[k].orders, id)
            &&& forall|i: int|
                0 <= i < book@.bids.len() && queue_has((#[trigger] book@.bids[i]).orders, id)
                    ==> o.order_type == OrderType::Bid && i == k
            &&& forall|i: int|
                0 <= i < book@.asks.len() && queue_has((#[trigger] book@.asks[i]).orders, id)
                    ==> o.order_type == OrderType::Ask && i == k
        }),
{
    let o = book.orders@[id];
    book.lemma_index_has(id);
    assert forall|i: int|
        0 <= i < book@.bids.len() && queue_has((#[trigger] book@.bids[i]).orders, id) implies o.order_type
        == OrderType::Bid && i == rank(book@.bids, o.limit_price@) by {
        lemma_level_of(book.orders@, book.bids@, book.asks@, OrderType::Bid, i, id);
    }
    assert forall|i: int|
        0 <= i < book@.asks.len() && queue_has((#[trigger] book@.asks[i]).orders, id) implies o.order_type
        == OrderType::Ask && i == rank(book@.asks, o.limit_price@) by {
        crate::matching::lemma_indexed_swap(book.orders@, book.bids@, book.asks@);
        lemma_level_of(book.orders@, book.asks@, book.bids@, OrderType::Ask, i, id);
    }
    match o.order_type {
        OrderType::Bid => {
            lemma_rests_where(book.bids@, OrderType::Bid, o);
        },
        OrderType::Ask => {
            lemma_rests_where(book.asks@, OrderType::Ask, o);
        },
    }
}

/// A level that holds an order with the identifier `id` is the level at the
/// price of the indexed order `id`, on its side.
proof fn lemma_level_of(
    index: Map<u64, crate::order::Order>,
    levels: Seq<Limit>,
    other: Seq<Limit>,
    side: OrderType,
    i: int,
    id: u64,
)
    requires
        crate::book::indexed(index, levels, other),
        side_wf(levels, side),
        0 <= i < levels.len(),
        queue_has(side_view(levels)[i].orders, id),
    ensures
        index.contains_key(id),
        index[id].order_type == side,
        i == rank(side_view(levels), index[id].limit_price@),
{
    let v = side_view(levels);
    let j = queue_position(v[i].orders, id);
    assert(v[i].orders[j] == levels[i].orders@[j]@);
    crate::side::lemma_rests_at(levels, i, j);
    let p = levels[i].orders@[j];
    assert(rests(levels, p));
    assert(index[id] == p);
    assert(v[i].ok());
    lemma_rank_of_level(v, i);
    lemma_rests_where(levels, side, p);
}

impl BookView {
    /// Both sides are well formed.
    pub open spec fn ok(self) -> bool {
        side_ok(self.bids, OrderType::Bid) && side_ok(self.asks, OrderType::Ask)
    }
}

/// The view of a well-formed book is well formed.
pub proof fn law_view_ok(book: &LimitOrderBook)
    requires
        book.wf(),
    ensures
        book@.ok(),
{
}

/// Resting an order on a side and then pulling it from the level at its
/// price gives the side back as it was.
proof fn lemma_rest_then_pull(levels: Seq<LevelView>, side: OrderType, o: OrderView)
    requires
        side_ok(levels, side),
        !side_has(levels, o.exchange_id),
    ensures
        side_has(rest_order(levels, o), o.exchange_id),
        price_of(rest_order(levels, o), o.exchange_id) == o.limit_price,
        crate::levels::pull_order(rest_order(levels, o), o.limit_price, o.exchange_id) == levels,
{
    let id = o.exchange_id;
    let p = o.limit_price;
    let k = rank(levels, p);
    lemma_rank(levels, p);
    let after = rest_order(levels, o);
    // the level that holds the order after it has come to rest
    let joined = if has_level(levels, p) {
        enqueue(levels[k].orders, o)
    } else {
        seq![o]
    };
    assert(after[k].orders == joined);
    assert(after[k].price == p);
    let a = if has_level(levels, p) {
        arrival_position(levels[k].orders, o.entry_time)
    } else {
        0
    };
    if has_level(levels, p) {
        assert(levels[k].ok());
        lemma_arrival_position(levels[k].orders, o.entry_time);
    }
    assert(joined[a] == o);
    assert(queue_has(joined, id));
    // no other level holds the identifier
    assert forall|i: int| 0 <= i < after.len() && i != k implies !queue_has(
        (#[trigger] after[i]).orders,
        id,
    ) by {
        let before_i = if has_level(levels, p) {
            i
        } else if i < k {
            i
        } else {
            i - 1
        };
        assert(after[i] == levels[before_i]);
        assert(!queue_has(levels[before_i].orders, id));
    }
    // within the level the order stands where it joined
    assert forall|j: int| 0 <= j < joined.len() && j != a implies (#[trigger] joined[j]).exchange_id
        != id by {
        if has_level(levels, p) {
            let q = levels[k].orders;
            let jj = if j < a {
                j
            } else {
                j - 1
            };
            assert(joined[j] == q[jj]);
            assert(!queue_has(q, id));
        }
    }
    assert(queue_position(joined, id) == a);
    // the rank of the price is where the level stands
    assert forall|i: int| 0 <= i < k implies (#[trigger] after[i]).price < p by {
        assert(after[i].price == levels[i].price);
    }
    assert forall|i: int| k <= i < after.len() implies (#[trigger] after[i]).price >= p by {
        if i > k {
            if has_level(levels, p) {
                assert(after[i] == levels[i]);
            } else {
                assert(after[i] == levels[i - 1]);
            }
        }
    }
    lemma_rank_is(after, p, k);
    let c = choose|c: int| 0 <= c < after.len() && queue_has((#[trigger] after[c]).orders, id);
    assert(c == k);
    if has_level(levels, p) {
        let q = levels[k].orders;
        assert(joined.len() == q.len() + 1);
        assert(joined.remove(a) =~= q);
        assert(after.update(k, LevelView { price: after[k].price, orders: q }) =~= levels);
    } else {
        assert(after.remove(k) =~= levels);
    }
}

/// Letting an order rest and then cancelling it gives the book back as it
/// was: the levels, and with them every size, notional value, order count
/// and best price.
pub proof fn law_rest_then_cancel(book: BookView, o: OrderView)
    requires
        book.ok(),
        !book.has(o.exchange_id),
    ensures
        book.rest(o).cancel(o.exchange_id) == book,
{
    match o.order_type {
        OrderType::Bid => {
            lemma_rest_then_pull(book.bids, OrderType::Bid, o);
        },
        OrderType::Ask => {
            lemma_rest_then_pull(book.asks, OrderType::Ask, o);
        },
    }
}

/// An order that the book lets rest and then cancels leaves the book as it
/// was.
pub proof fn law_add_then_remove(book: &LimitOrderBook, order: crate::order::Order)
    requires
        book.wf(),
        book.add_rejection(order) is None,
    ensures
        book@.rest(order@).cancel(order.exchange_id) == book@,
{
    book.lemma_index_has(order.exchange_id);
    law_rest_then_cancel(book@, order@);
}

/// A taker whose size is exactly the size of the best level, and whose limit
/// that level meets, takes the whole level and nothing else: the level
/// leaves the side, so that the next price becomes the best, and nothing is
/// left of the taker.
pub proof fn law_match_whole_level(
    levels: Seq<LevelView>,
    from_low: bool,
    limit: Option<int>,
    taker_id: u64,
)
    requires
        levels.len() > 0,
        levels[best_index(levels, from_low)].ok(),
        marketable(levels[best_index(levels, from_low)].price, limit, from_low),
    ensures
        ({
            let b = best_index(levels, from_low);
            let m = run_match(levels, from_low, levels[b].size(), limit, taker_id);
            &&& m.levels == levels.remove(b)
            &&& m.remaining == 0
        }),
    decreases levels[best_index(levels, from_low)].orders.len(),
{
    let b = best_index(levels, from_low);
    let q = levels[b].orders;
    lemma_queue_size_bounds(q, levels[b].price);
    lemma_queue_size_remove(q, 0);
    let next = without_front(levels, from_low);
    let size = levels[b].size();
    assert(q[0].shares <= size);
    crate::levels::lemma_match_step(levels, from_low, size, limit, taker_id);
    if q.len() == 1 {
        assert(q.remove(0) =~= Seq::empty());
        assert(size - q[0].shares == 0);
        assert(next == levels.remove(b));
    } else {
        crate::queue::lemma_remove_ok(q, levels[b].price, 0);
        assert(best_index(next, from_low) == b);
        assert(next[b].orders == q.remove(0));
        assert(next[b].price == levels[b].price);
        assert(next[b].size() == size - q[0].shares);
        law_match_whole_level(next, from_low, limit, taker_id);
        assert(next.remove(b) =~= levels.remove(b));
    }
}

/// A taker whose size is less than the size of the best level, and whose
/// limit that level meets, is filled at that level alone: the level stays
/// where it is, at its price, with its size less by the taker's, and every
/// other level is as it was.
pub proof fn law_match_part_of_level(
    levels: Seq<LevelView>,
    from_low: bool,
    quantity: int,
    limit: Option<int>,
    taker_id: u64,
)
    requires
        levels.len() > 0,
        levels[best_index(levels, from_low)].ok(),
        marketable(levels[best_index(levels, from_low)].price, limit, from_low),
        0 < quantity < levels[best_index(levels, from_low)].size(),
    ensures
        ({
            let b = best_index(levels, from_low);
            let m = run_match(levels, from_low, quantity, limit, taker_id);
            &&& m.remaining == 0
            &&& m.levels.len() == levels.len()
            &&& m.levels[b].price == levels[b].price
            &&& m.levels[b].size() == levels[b].size() - quantity
            &&& m.levels[b].orders.len() > 0
            &&& forall|k: int| 0 <= k < levels.len() && k != b ==> m.levels[k] == levels[k]
        }),
    decreases levels[best_index(levels, from_low)].orders.len(),
{
    let b = best_index(levels, from_low);
    let q = levels[b].orders;
    let head = q[0];
    lemma_queue_size_bounds(q, levels[b].price);
    crate::levels::lemma_match_step(levels, from_low, quantity, limit, taker_id);
    if head.shares <= quantity {
        lemma_queue_size_remove(q, 0);
        let r = q.remove(0);
        assert(q.len() > 1) by {
            if q.len() == 1 {
                assert(r =~= Seq::empty());
            }
        }
        let next = without_front(levels, from_low);
        crate::queue::lemma_remove_ok(q, levels[b].price, 0);
        assert(best_index(next, from_low) == b);
        assert(next[b].orders == r);
        assert(next[b].price == levels[b].price);
        assert(next[b].size() == levels[b].size() - head.shares);
        assert forall|k: int| 0 <= k < levels.len() && k != b implies next[k] == levels[k] by {}
        if head.shares < quantity {
            law_match_part_of_level(next, from_low, quantity - head.shares, limit, taker_id);
        }
    } else {
        let w = with_front_reduced(levels, from_low, quantity);
        lemma_queue_size_update(q, 0, head.with_shares(head.shares - quantity));
        assert(w[b].orders == q.update(0, head.with_shares(head.shares - quantity)));
        assert forall|k: int| 0 <= k < levels.len() && k != b implies w[k] == levels[k] by {}
    }
}

/// The total size resting on a side.
pub open spec fn side_size(levels: Seq<LevelView>) -> int
    decreases levels.len(),
{
    if levels.len() == 0 {
        0
    } else {
        side_size(levels.drop_last()) + levels.last().size()
    }
}

/// The total quantity of a sequence of fills.
pub open spec fn fills_quantity(fills: Seq<FillView>) -> int
    decreases fills.len(),
{
    if fills.len() == 0 {
        0
    } else {
        fills_quantity(fills.drop_last()) + fills.last().quantity
    }
}

proof fn lemma_side_size_remove(levels: Seq<LevelView>, k: int)
    requires
        0 <= k < levels.len(),
    ensures
        side_size(levels.remove(k)) == side_size(levels) - levels[k].size(),
    decreases levels.len(),
{
    let r = levels.remove(k);
    if k == levels.len() - 1 {
        assert(r =~= levels.drop_last());
    } else {
        assert(r.drop_last() =~= levels.drop_last().remove(k));
        assert(r.last() == levels.last());
        lemma_side_size_remove(levels.drop_last(), k);
    }
}

proof fn lemma_side_size_update(levels: Seq<LevelView>, k: int, level: LevelView)
    requires
        0 <= k < levels.len(),
    ensures
        side_size(levels.update(k, level)) == side_size(levels) - levels[k].size() + level.size(),
    decreases levels.len(),
{
    let r = levels.update(k, level);
    if k == levels.len() - 1 {
        assert(r.drop_last() =~= levels.drop_last());
    } else {
        assert(r.drop_last() =~= levels.drop_last().update(k, level));
        assert(r.last() == levels.last());
        lemma_side_size_update(levels.drop_last(), k, level);
    }
}

proof fn lemma_fills_quantity_first(f: FillView, fills: Seq<FillView>)
    ensures
        fills_quantity(seq![f] + fills) == f.quantity + fills_quantity(fills),
    decreases fills.len(),
{
    let all = seq![f] + fills;
    if fills.len() == 0 {
        assert(all.drop_last() =~= Seq::empty());
        assert(all.last() == f);
        assert(fills_quantity(all.drop_last()) == 0);
    } else {
        assert(all.drop_last() =~= seq![f] + fills.drop_last());
        assert(all.last() == fills.last());
        lemma_fills_quantity_first(f, fills.drop_last());
    }
}

/// What a match does and where it stops.
///
/// Nothing is lost: what the taker got and what is left of it make up its
/// size, and the side lost exactly what the taker got. Every trade has a
/// positive quantity and a price that the taker's limit allows. The side
/// stays well formed. And the match goes as far as it can: where something
/// is left of the taker, the side is empty or its best price is beyond the
/// limit.
pub proof fn law_match_outcome(
    levels: Seq<LevelView>,
    side: OrderType,
    from_low: bool,
    quantity: int,
    limit: Option<int>,
    taker_id: u64,
)
    requires
        side_ok(levels, side),
        quantity >= 0,
    ensures
        ({
            let m = run_match(levels, from_low, quantity, limit, taker_id);
            &&& 0 <= m.remaining <= quantity
            &&& fills_quantity(m.fills) + m.remaining == quantity
            &&& side_size(m.levels) + fills_quantity(m.fills) == side_size(levels)
            &&& side_ok(m.levels, side)
            &&& m.remaining > 0 ==> m.levels.len() == 0 || !marketable(
                m.levels[best_index(m.levels, from_low)].price,
                limit,
                from_low,
            )
            &&& forall|i: int|
                0 <= i < m.fills.len() ==> (#[trigger] m.fills[i]).quantity > 0 && marketable(
                    m.fills[i].price,
                    limit,
                    from_low,
                ) && m.fills[i].taker_id == taker_id
        }),
    decreases levels.len(), crate::levels::front_queue_len(levels, from_low),
{
    let b = best_index(levels, from_low);
    let m = run_match(levels, from_low, quantity, limit, taker_id);
    if quantity > 0 && levels.len() > 0 {
        assert(levels[b].ok());
        if marketable(levels[b].price, limit, from_low) {
            let q = levels[b].orders;
            let head = q[0];
            lemma_queue_size_bounds(q, levels[b].price);
            crate::levels::lemma_match_step(levels, from_low, quantity, limit, taker_id);
            if head.shares <= quantity {
                let next = without_front(levels, from_low);
                let f = crate::levels::fill_of(head, head.shares, taker_id);
                let rest = run_match(next, from_low, quantity - head.shares, limit, taker_id);
                crate::queue::lemma_remove_ok(q, levels[b].price, 0);
                if q.len() == 1 {
                    assert(q.remove(0) =~= Seq::empty());
                    lemma_side_size_remove(levels, b);
                    crate::levels::lemma_side_remove(levels, side, b);
                } else {
                    let shorter = LevelView { price: levels[b].price, orders: q.remove(0) };
                    assert forall|j: int| 0 <= j < shorter.orders.len() implies (
                    #[trigger] shorter.orders[j]).order_type == side by {
                        assert(shorter.orders[j] == q[j + 1]);
                    }
                    lemma_side_size_update(levels, b, shorter);
                    crate::levels::lemma_side_update(levels, side, b, shorter);
                }
                law_match_outcome(next, side, from_low, quantity - head.shares, limit, taker_id);
                lemma_fills_quantity_first(f, rest.fills);
                assert forall|i: int| 0 <= i < m.fills.len() implies (
                #[trigger] m.fills[i]).quantity > 0 && marketable(
                    m.fills[i].price,
                    limit,
                    from_low,
                ) && m.fills[i].taker_id == taker_id by {
                    if i > 0 {
                        assert(m.fills[i] == rest.fills[i - 1]);
                    }
                }
            } else {
                let f = crate::levels::fill_of(head, quantity, taker_id);
                let reduced = LevelView {
                    price: levels[b].price,
                    orders: q.update(0, head.with_shares(head.shares - quantity)),
                };
                crate::queue::lemma_reduce_ok(q, levels[b].price, 0, head.shares - quantity);
                assert forall|j: int| 0 <= j < reduced.orders.len() implies (
                #[trigger] reduced.orders[j]).order_type == side by {
                    assert(reduced.orders[j].order_type == q[j].order_type);
                }
                lemma_side_size_update(levels, b, reduced);
                crate::levels::lemma_side_update(levels, side, b, reduced);
                assert(m.fills =~= seq![f]);
                lemma_fills_quantity_first(f, Seq::empty());
                assert(seq![f] + Seq::<FillView>::empty() =~= seq![f]);
            }
        }
    }
}

/// What a walk past a level leaves of a taker is what the taker had more
/// than the level.
proof fn lemma_level_walk_value(
    q: Seq<crate::order::Order>,
    size: crate::decimal::Decimal,
    volume: crate::decimal::Decimal,
    price: crate::decimal::Decimal,
    rem: crate::decimal::Decimal,
)
    requires
        rem.inv(),
        rem@ >= 0,
        crate::queue::queue_priced(crate::limit::views(q), price@),
        forall|j: int| 0 <= j < q.len() ==> (#[trigger] q[j]).shares.inv(),
    ensures
        crate::matching::level_walk(q, size, volume, price, rem) matches Some(left) ==> left.inv()
            && left@ == if rem@ >= crate::queue::queue_size(crate::limit::views(q)) {
            rem@ - crate::queue::queue_size(crate::limit::views(q))
        } else {
            0
        },
    decreases q.len(),
{
    let v = crate::limit::views(q);
    lemma_queue_size_bounds(v, price@);
    crate::decimal::Decimal::lemma_zero_value();
    if q.len() > 0 && rem@ > 0 {
        assert(v[0] == q[0]@);
        if q[0].shares@ <= rem@ {
            if rem.can_sub(q[0].shares) {
                let r = q.remove(0);
                rem.lemma_difference_of(q[0].shares);
                assert(crate::limit::views(r) =~= v.remove(0));
                lemma_queue_size_remove(v, 0);
                crate::queue::lemma_remove_ok_priced(v, price@, 0);
                assert forall|j: int| 0 <= j < r.len() implies (#[trigger] r[j]).shares.inv() by {
                    assert(r[j] == q[j + 1]);
                }
                lemma_level_walk_value(
                    r,
                    size.difference_of(q[0].shares),
                    volume.difference_of(q[0].shares.product_of(price)),
                    price,
                    rem.difference_of(q[0].shares),
                );
            }
        }
    }
}

/// A taker that can take the whole best level goes on to the next level with
/// what it then has left.
proof fn lemma_match_past_level(
    levels: Seq<LevelView>,
    from_low: bool,
    quantity: int,
    limit: Option<int>,
    taker_id: u64,
)
    requires
        levels.len() > 0,
        levels[best_index(levels, from_low)].ok(),
        marketable(levels[best_index(levels, from_low)].price, limit, from_low),
        quantity >= levels[best_index(levels, from_low)].size(),
    ensures
        ({
            let b = best_index(levels, from_low);
            run_match(levels, from_low, quantity, limit, taker_id).remaining == run_match(
                levels.remove(b),
                from_low,
                quantity - levels[b].size(),
                limit,
                taker_id,
            ).remaining
        }),
    decreases levels[best_index(levels, from_low)].orders.len(),
{
    let b = best_index(levels, from_low);
    let q = levels[b].orders;
    lemma_queue_size_bounds(q, levels[b].price);
    lemma_queue_size_remove(q, 0);
    let next = without_front(levels, from_low);
    crate::levels::lemma_match_step(levels, from_low, quantity, limit, taker_id);
    if q.len() == 1 {
        assert(q.remove(0) =~= Seq::empty());
        assert(next == levels.remove(b));
    } else {
        crate::queue::lemma_remove_ok(q, levels[b].price, 0);
        assert(best_index(next, from_low) == b);
        assert(next[b].orders == q.remove(0));
        lemma_queue_size_bounds(q.remove(0), levels[b].price);
        lemma_match_past_level(next, from_low, quantity - q[0].shares, limit, taker_id);
        assert(next.remove(b) =~= levels.remove(b));
    }
}

/// What a walk past a side leaves of a taker, where every number along the
/// way can be held, is what matching leaves of it.
pub proof fn law_walk_remainder(
    levels: Seq<Limit>,
    side: OrderType,
    from_low: bool,
    limit: Option<int>,
    rem: crate::decimal::Decimal,
    taker_id: u64,
)
    requires
        side_wf(levels, side),
        rem.inv(),
        rem@ >= 0,
    ensures
        crate::matching::side_walk(levels, from_low, limit, rem) matches Some(left) ==> left@
            == run_match(side_view(levels), from_low, rem@, limit, taker_id).remaining,
    decreases levels.len(),
{
    let v = side_view(levels);
    let b = best_index(v, from_low);
    if rem@ > 0 && levels.len() > 0 {
        assert(v[b] == levels[b]@);
        assert(v[b].ok());
        assert(levels[b].wf());
        if marketable(levels[b].limit_price@, limit, from_low) {
            let level = levels[b];
            lemma_level_walk_value(
                level.orders@,
                level.size,
                level.total_volume,
                level.limit_price,
                rem,
            );
            lemma_queue_size_bounds(v[b].orders, v[b].price);
            if rem@ >= v[b].size() {
                lemma_match_past_level(v, from_low, rem@, limit, taker_id);
                let rest = levels.remove(b);
                assert(side_view(rest) =~= v.remove(b));
                crate::levels::lemma_side_remove(v, side, b);
                assert forall|k: int| 0 <= k < rest.len() implies (#[trigger] rest[k]).wf() by {
                    if k < b {
                        assert(rest[k] == levels[k]);
                    } else {
                        assert(rest[k] == levels[k + 1]);
                    }
                }
                match crate::matching::level_walk(
                    level.orders@,
                    level.size,
                    level.total_volume,
                    level.limit_price,
                    rem,
                ) {
                    Some(r) => {
                        if r@ > 0 {
                            law_walk_remainder(rest, side, from_low, limit, r, taker_id);
                        }
                    },
                    None => {},
                }
            } else {
                law_match_part_of_level(v, from_low, rem@, limit, taker_id);
            }
        }
    }
}

} // verus!
