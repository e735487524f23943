//! Matching an incoming order against the resting orders of the other side,
//! in price and time priority.

use crate::book::{indexed, BookView, LimitOrderBook};
use crate::decimal::Decimal;
use crate::levels::{best_index, fill_of, lemma_match_step, lemma_side_count_nonnegative, marketable, run_match, side_count, with_front_reduced, without_front, MatchView};
use crate::limit::{lemma_totals_remove, totals_ok, views, with_shares, Limit, Written};
use crate::order::{BookError, Fill, FillView, Order, OrderType, OrderView};
use crate::queue::queue_priced;
use crate::side::{find_level, lemma_rests_where, reduce_front, rest_rejection, rests, side_view, side_wf, side_written, take_front, with_order};
use std::collections::HashMap;
use vstd::prelude::*;

verus! {

/// The fills that a vector of fills stands for.
pub open spec fn fill_views(fills: Seq<Fill>) -> Seq<FillView> {
    fills.map_values(|f: Fill| f@)
}

/// The limit price as the contracts see it.
pub open spec fn limit_view(limit: Option<Decimal>) -> Option<int> {
    match limit {
        Some(p) => Some(p@),
        None => None,
    }
}

/// The other side of the book.
pub open spec fn opposite(side: OrderType) -> OrderType {
    match side {
        OrderType::Bid => OrderType::Ask,
        OrderType::Ask => OrderType::Bid,
    }
}

/// What came of an incoming order.
#[derive(Debug)]
pub struct Execution {
    /// The trades, in the order in which they were made.
    pub fills: Vec<Fill>,
    /// What was left of the order when matching stopped.
    pub remaining: Decimal,
}

impl BookView {
    /// What matching `taker` against the other side comes to.
    pub open spec fn matched(self, taker: OrderView, limited: bool) -> MatchView {
        run_match(
            self.side(opposite(taker.order_type)),
            taker.order_type == OrderType::Bid,
            taker.shares,
            if limited {
                Some(taker.limit_price)
            } else {
                None
            },
            taker.exchange_id,
        )
    }

    /// The book after `taker` has been matched. With a limit, what is left of
    /// the taker comes to rest on its own side; without one it is dropped.
    pub open spec fn execute(self, taker: OrderView, limited: bool) -> BookView {
        let m = self.matched(taker, limited);
        let after = self.with_side(opposite(taker.order_type), m.levels);
        if limited && m.remaining > 0 {
            after.rest(taker.with_shares(m.remaining))
        } else {
            after
        }
    }
}

/// What is left of a taker of whom `rem` is left after it has met a level,
/// as it is written; `None` where a number along the way could not be held
/// exactly.
///
/// `q` is the level's queue, `size` and `volume` its totals and `price` its
/// price. While something is left, the order at the front trades. If the
/// taker can take all of it, its size is subtracted from what is left of the
/// taker, and the order leaves the totals. If not, what is left of the taker
/// is subtracted from the totals, its notional value being its size times
/// the price, and nothing is left.
pub open spec fn level_walk(
    q: Seq<Order>,
    size: Decimal,
    volume: Decimal,
    price: Decimal,
    rem: Decimal,
) -> Option<Decimal>
    decreases q.len(),
{
    if q.len() == 0 || rem@ <= 0 {
        Some(rem)
    } else if q[0].shares@ <= rem@ {
        if rem.can_sub(q[0].shares) {
            level_walk(
                q.remove(0),
                size.difference_of(q[0].shares),
                volume.difference_of(q[0].shares.product_of(price)),
                price,
                rem.difference_of(q[0].shares),
            )
        } else {
            None
        }
    } else if size.can_sub(rem) && rem.can_mul(price) && volume.can_sub(rem.product_of(price)) {
        Some(Decimal::zero_value())
    } else {
        None
    }
}

/// Where the best level of a side stands among `n` levels.
pub open spec fn best_of(n: nat, from_low: bool) -> int {
    if from_low {
        0
    } else {
        n - 1
    }
}

/// What is left of a taker of whom `rem` is left after it has met a side, as
/// it is written; `None` where a number along the way could not be held
/// exactly. The taker meets the levels best price first, as long as
/// something is left of it and the price is within its limit.
pub open spec fn side_walk(
    levels: Seq<Limit>,
    from_low: bool,
    limit: Option<int>,
    rem: Decimal,
) -> Option<Decimal>
    decreases levels.len(),
{
    let b = best_of(levels.len(), from_low);
    if rem@ <= 0 || levels.len() == 0 || !marketable(levels[b].limit_price@, limit, from_low) {
        Some(rem)
    } else {
        match level_walk(
            levels[b].orders@,
            levels[b].size,
            levels[b].total_volume,
            levels[b].limit_price,
            rem,
        ) {
            None => None,
            Some(r) => if r@ > 0 {
                side_walk(levels.remove(b), from_low, limit, r)
            } else {
                Some(r)
            },
        }
    }
}

/// The side as it is written after the order at the front of its best
/// level has traded with a taker of whom `rem` is left: the order has left
/// its level, and the level the side where it was the last, if the taker
/// could take all of it; else it stays with what is left of it, and the
/// totals are less by `rem`.
pub open spec fn step_written(w: Seq<Written>, from_low: bool, rem: Decimal) -> Seq<Written> {
    let b = best_of(w.len(), from_low);
    let q = w[b].orders;
    if q[0].shares@ <= rem@ {
        if q.len() == 1 {
            w.remove(b)
        } else {
            w.update(
                b,
                Written {
                    price: w[b].price,
                    orders: q.remove(0),
                    size: w[b].size.difference_of(q[0].shares),
                    volume: w[b].volume.difference_of(q[0].shares.product_of(w[b].price)),
                },
            )
        }
    } else {
        w.update(
            b,
            Written {
                price: w[b].price,
                orders: q.update(0, with_shares(q[0], q[0].shares.difference_of(rem))),
                size: w[b].size.difference_of(rem),
                volume: w[b].volume.difference_of(rem.product_of(w[b].price)),
            },
        )
    }
}

/// A measure that every step of a walk makes smaller.
pub open spec fn front_written_len(w: Seq<Written>, from_low: bool) -> nat {
    if w.len() == 0 {
        0
    } else {
        w[best_of(w.len(), from_low)].orders.len()
    }
}

/// The side as it is written after a taker of whom `rem` is left has been
/// matched against it, where every number along the way can be held.
pub open spec fn walk_written(
    w: Seq<Written>,
    from_low: bool,
    limit: Option<int>,
    rem: Decimal,
) -> Seq<Written>
    decreases w.len(), front_written_len(w, from_low),
{
    let b = best_of(w.len(), from_low);
    if rem@ <= 0 || w.len() == 0 || w[b].orders.len() == 0 || !marketable(
        w[b].price@,
        limit,
        from_low,
    ) {
        w
    } else if w[b].orders[0].shares@ <= rem@ {
        walk_written(
            step_written(w, from_low, rem),
            from_low,
            limit,
            rem.difference_of(w[b].orders[0].shares),
        )
    } else {
        step_written(w, from_low, rem)
    }
}

/// The levels that a taker has yet to meet after it has met `i` of them.
pub open spec fn rest_of(levels: Seq<Limit>, from_low: bool, i: int) -> Seq<Limit> {
    if from_low {
        levels.skip(i)
    } else {
        levels.take(levels.len() - i)
    }
}

/// The two sides of an indexed book may be named in either order.
pub proof fn lemma_indexed_swap(index: Map<u64, Order>, a: Seq<Limit>, b: Seq<Limit>)
    requires
        indexed(index, a, b),
    ensures
        indexed(index, b, a),
{
}

/// The index stays right when an order leaves both a side and the index.
pub proof fn lemma_indexed_remove(
    index: Map<u64, Order>,
    before: Seq<Limit>,
    after: Seq<Limit>,
    other: Seq<Limit>,
    side: OrderType,
    removed: Order,
)
    requires
        indexed(index, before, other),
        side_wf(before, side),
        side_wf(other, opposite(side)),
        rests(before, removed),
        forall|x: Order| #[trigger] rests(after, x) <==> rests(before, x) && x != removed,
    ensures
        index.contains_key(removed.exchange_id),
        index[removed.exchange_id] == removed,
        indexed(index.remove(removed.exchange_id), after, other),
{
    let id = removed.exchange_id;
    let next = index.remove(id);
    lemma_rests_where(before, side, removed);
    assert forall|o: Order|
        #![trigger rests(after, o)]
        #![trigger rests(other, o)]
        rests(after, o) || rests(other, o) implies next.contains_key(o.exchange_id)
        && next[o.exchange_id] == o by {
        assert(rests(before, o) || rests(other, o));
        if rests(other, o) {
            lemma_rests_where(other, opposite(side), o);
        }
    }
    assert forall|x: u64| #[trigger] next.contains_key(x) implies next[x].exchange_id == x && (
    rests(after, next[x]) || rests(other, next[x])) by {
        assert(index.contains_key(x));
        assert(rests(before, index[x]) || rests(other, index[x]));
    }
}

/// The index stays right when a resting order is replaced, on its side and
/// in the index, by an order with the same identifier.
pub proof fn lemma_indexed_replace(
    index: Map<u64, Order>,
    before: Seq<Limit>,
    after: Seq<Limit>,
    other: Seq<Limit>,
    side: OrderType,
    front: Order,
    r: Order,
)
    requires
        indexed(index, before, other),
        side_wf(before, side),
        side_wf(other, opposite(side)),
        rests(before, front),
        r.exchange_id == front.exchange_id,
        forall|x: Order| #[trigger] rests(after, x) <==> (rests(before, x) && x != front) || x == r,
    ensures
        index.contains_key(front.exchange_id),
        indexed(index.insert(front.exchange_id, r), after, other),
{
    let id = front.exchange_id;
    let next = index.insert(id, r);
    lemma_rests_where(before, side, front);
    assert forall|o: Order|
        #![trigger rests(after, o)]
        #![trigger rests(other, o)]
        rests(after, o) || rests(other, o) implies next.contains_key(o.exchange_id)
        && next[o.exchange_id] == o by {
        if o != r {
            assert(rests(before, o) || rests(other, o));
            if rests(other, o) {
                lemma_rests_where(other, opposite(side), o);
            }
        }
    }
    assert forall|x: u64| #[trigger] next.contains_key(x) implies next[x].exchange_id == x && (
    rests(after, next[x]) || rests(other, next[x])) by {
        if x != id {
            assert(index.contains_key(x));
            assert(rests(before, index[x]) || rests(other, index[x]));
        } else {
            assert(rests(after, r));
        }
    }
}

/// Lets the order at the front of the best level of the side trade with a
/// taker of whom `remaining` is left: for all of its size, if the taker can
/// take it, after which it leaves the side and the index; else for
/// `remaining`. Returns the trade and what is then left of the taker.
fn match_step(
    levels: &mut Vec<Limit>,
    index: &mut HashMap<u64, Order>,
    other: &Vec<Limit>,
    side: OrderType,
    from_low: bool,
    remaining: Decimal,
    limit: Option<Decimal>,
    taker_id: u64,
) -> (r: (Fill, Decimal))
    requires
        side_wf(old(levels)@, side),
        side_wf(other@, opposite(side)),
        indexed(old(index)@, old(levels)@, other@),
        old(index)@.len() == side_count(side_view(old(levels)@)) + side_count(side_view(other@)),
        old(levels)@.len() > 0,
        remaining@ > 0,
        marketable(
            old(levels)@[best_of(old(levels)@.len(), from_low)].limit_price@,
            limit_view(limit),
            from_low,
        ),
        side_walk(old(levels)@, from_low, limit_view(limit), remaining) is Some,
    ensures
        side_wf(final(levels)@, side),
        indexed(final(index)@, final(levels)@, other@),
        final(index)@.len() == side_count(side_view(final(levels)@)) + side_count(
            side_view(other@),
        ),
        forall|id: u64| final(index)@.contains_key(id) ==> old(index)@.contains_key(id),
        0 <= r.1@ < remaining@,
        side_written(final(levels)@) == step_written(
            side_written(old(levels)@),
            from_low,
            remaining,
        ),
        old(levels)@[best_of(old(levels)@.len(), from_low)].orders@[0].shares@ <= remaining@ ==> r.1
            == remaining.difference_of(
            old(levels)@[best_of(old(levels)@.len(), from_low)].orders@[0].shares,
        ),
        side_walk(final(levels)@, from_low, limit_view(limit), r.1) == side_walk(
            old(levels)@,
            from_low,
            limit_view(limit),
            remaining,
        ),
        ({
            let v = side_view(old(levels)@);
            let head = v[best_index(v, from_low)].orders[0];
            if head.shares <= remaining@ {
                &&& side_view(final(levels)@) == without_front(v, from_low)
                &&& r.0@ == fill_of(head, head.shares, taker_id)
                &&& r.1@ == remaining@ - head.shares
                &&& side_count(side_view(final(levels)@)) == side_count(v) - 1
            } else {
                &&& side_view(final(levels)@) == with_front_reduced(v, from_low, remaining@)
                &&& r.0@ == fill_of(head, remaining@, taker_id)
                &&& r.1@ == 0
                &&& side_count(side_view(final(levels)@)) == side_count(v)
            }
        }),
{
    broadcast use vstd::std_specs::hash::group_hash_axioms;

    let ghost v = side_view(levels@);
    let ghost before = levels@;
    let ghost before_index = index@;
    let ghost lim = limit_view(limit);
    let b: usize = if from_low {
        0
    } else {
        levels.len() - 1
    };
    let ghost level = before[b as int];
    let ghost q = level.orders@;
    proof {
        use_type_invariant(&remaining);
        assert(v[b as int] == before[b as int]@);
        assert(v[b as int].ok());
        assert(before[b as int].wf());
        assert(v[b as int].orders[0] == before[b as int].orders@[0]@);
        assert(level_walk(q, level.size, level.total_volume, level.limit_price, remaining)
            is Some);
    }
    let price: Decimal = levels[b].orders[0].limit_price;
    let maker_id: u64 = levels[b].orders[0].exchange_id;
    let front_shares: Decimal = levels[b].orders[0].shares;
    if front_shares.le(&remaining) {
        let maker = take_front(levels, side, from_low);
        proof {
            lemma_indexed_remove(before_index, before, levels@, other@, side, maker);
        }
        index.remove(&maker_id);
        let left = remaining.checked_sub(&front_shares).unwrap();
        proof {
            let after = levels@;
            let next = level_walk(
                q.remove(0),
                level.size.difference_of(q[0].shares),
                level.total_volume.difference_of(q[0].shares.product_of(level.limit_price)),
                level.limit_price,
                left,
            );
            assert(level_walk(q, level.size, level.total_volume, level.limit_price, remaining)
                == next);
            if q.len() == 1 {
                assert(q.remove(0) =~= Seq::empty());
                assert(next == Some(left));
                assert(side_written(after) =~= side_written(before).remove(b as int));
            } else {
                assert(after.remove(b as int) =~= before.remove(b as int));
                assert(side_written(after) =~= side_written(before).update(
                    b as int,
                    after[b as int].written(),
                ));
            }
        }
        (Fill { price, quantity: front_shares, maker_id, taker_id }, left)
    } else {
        let updated = reduce_front(levels, side, from_low, &remaining);
        proof {
            lemma_indexed_replace(
                before_index,
                before,
                levels@,
                other@,
                side,
                before[b as int].orders@[0],
                updated,
            );
            assert(before_index.insert(maker_id, updated).len() == before_index.len());
            Decimal::lemma_zero_value();
        }
        index.insert(maker_id, updated);
        (Fill { price, quantity: remaining, maker_id, taker_id }, Decimal::zero())
    }
}

/// Matches `quantity` against one side of the book, best price first and
/// within a price the earliest order first, until the quantity is used up,
/// the side is empty or its best price is beyond `limit`.
pub(crate) fn match_side(
    levels: &mut Vec<Limit>,
    index: &mut HashMap<u64, Order>,
    other: &Vec<Limit>,
    side: OrderType,
    from_low: bool,
    quantity: Decimal,
    limit: Option<Decimal>,
    taker_id: u64,
) -> (r: Execution)
    requires
        side_wf(old(levels)@, side),
        side_wf(other@, opposite(side)),
        indexed(old(index)@, old(levels)@, other@),
        old(index)@.len() == side_count(side_view(old(levels)@)) + side_count(side_view(other@)),
        quantity@ >= 0,
        side_walk(old(levels)@, from_low, limit_view(limit), quantity) is Some,
    ensures
        side_wf(final(levels)@, side),
        indexed(final(index)@, final(levels)@, other@),
        final(index)@.len() == side_count(side_view(final(levels)@)) + side_count(
            side_view(other@),
        ),
        forall|id: u64| final(index)@.contains_key(id) ==> old(index)@.contains_key(id),
        ({
            let m = run_match(
                side_view(old(levels)@),
                from_low,
                quantity@,
                limit_view(limit),
                taker_id,
            );
            &&& side_view(final(levels)@) == m.levels
            &&& fill_views(r.fills@) == m.fills
            &&& r.remaining@ == m.remaining
        }),
        Some(r.remaining) == side_walk(old(levels)@, from_low, limit_view(limit), quantity),
        side_written(final(levels)@) == walk_written(
            side_written(old(levels)@),
            from_low,
            limit_view(limit),
            quantity,
        ),
        0 <= r.remaining@ <= quantity@,
{
    let ghost start = side_view(levels@);
    let ghost first = levels@;
    let ghost first_index = index@;
    let ghost lim = limit_view(limit);
    let ghost m0 = run_match(start, from_low, quantity@, lim, taker_id);
    let mut remaining: Decimal = quantity;
    let mut fills: Vec<Fill> = Vec::new();
    proof {
        assert(fill_views(fills@) =~= Seq::empty());
        assert(fill_views(fills@) + m0.fills =~= m0.fills);
    }
    loop
        invariant
            side_wf(levels@, side),
            side_wf(other@, opposite(side)),
            indexed(index@, levels@, other@),
            index@.len() == side_count(side_view(levels@)) + side_count(side_view(other@)),
            forall|id: u64| index@.contains_key(id) ==> first_index.contains_key(id),
            0 <= remaining@ <= quantity@,
            lim == limit_view(limit),
            side_walk(levels@, from_low, lim, remaining) == side_walk(
                first,
                from_low,
                lim,
                quantity,
            ),
            side_walk(first, from_low, lim, quantity) is Some,
            walk_written(side_written(levels@), from_low, lim, remaining) == walk_written(
                side_written(first),
                from_low,
                lim,
                quantity,
            ),
            m0.levels == run_match(side_view(levels@), from_low, remaining@, lim, taker_id).levels,
            m0.fills == fill_views(fills@) + run_match(
                side_view(levels@),
                from_low,
                remaining@,
                lim,
                taker_id,
            ).fills,
            m0.remaining == run_match(
                side_view(levels@),
                from_low,
                remaining@,
                lim,
                taker_id,
            ).remaining,
        ensures
            run_match(side_view(levels@), from_low, remaining@, lim, taker_id) == (MatchView {
                levels: side_view(levels@),
                fills: Seq::empty(),
                remaining: remaining@,
            }),
            side_walk(levels@, from_low, lim, remaining) == Some(remaining),
            walk_written(side_written(levels@), from_low, lim, remaining) == side_written(levels@),
        decreases
                side_count(side_view(levels@)) + if remaining@ > 0 {
                    1int
                } else {
                    0int
                },
    {
        let ghost v = side_view(levels@);
        let ghost done = fill_views(fills@);
        let ghost qty = remaining@;
        if !remaining.is_positive() {
            break ;
        }
        if levels.len() == 0 {
            break ;
        }
        let b: usize = if from_low {
            0
        } else {
            levels.len() - 1
        };
        proof {
            assert(v[b as int] == levels@[b as int]@);
            assert(v[b as int].ok());
            assert(side_written(levels@)[b as int] == levels@[b as int].written());
            assert(v[b as int].orders[0] == levels@[b as int].orders@[0]@);
            lemma_side_count_nonnegative(v);
        }
        let ghost written_before = side_written(levels@);
        let tradable: bool = match limit {
            None => true,
            Some(l) => if from_low {
                levels[b].limit_price.le(&l)
            } else {
                l.le(&levels[b].limit_price)
            },
        };
        if !tradable {
            break ;
        }
        let step = match_step(levels, index, other, side, from_low, remaining, limit, taker_id);
        fills.push(step.0);
        remaining = step.1;
        proof {
            lemma_match_step(v, from_low, qty, lim, taker_id);
            lemma_side_count_nonnegative(side_view(levels@));
            let rest = run_match(side_view(levels@), from_low, remaining@, lim, taker_id);
            Decimal::lemma_zero_value();
            assert(walk_written(side_written(levels@), from_low, lim, remaining) == walk_written(
                side_written(first),
                from_low,
                lim,
                quantity,
            ));
            assert(fill_views(fills@) =~= done.push(step.0@));
            assert(done + (seq![step.0@] + rest.fills) =~= done.push(step.0@) + rest.fills);
        }
    }
    proof {
        assert(fill_views(fills@) + Seq::<FillView>::empty() =~= fill_views(fills@));
    }
    Execution { fills, remaining }
}

/// What would be left of a taker of whom `remaining` is left after it has
/// met the level, or `None` where a number could not be held exactly. The
/// level is not changed.
fn forecast_level(level: &Limit, remaining: Decimal) -> (r: Option<Decimal>)
    requires
        level.wf(),
    ensures
        r == level_walk(
            level.orders@,
            level.size,
            level.total_volume,
            level.limit_price,
            remaining,
        ),
{
    let ghost q = level.orders@;
    let price: Decimal = level.limit_price;
    let n: usize = level.orders.len();
    let mut rem: Decimal = remaining;
    let mut size: Decimal = level.size;
    let mut volume: Decimal = level.total_volume;
    let mut k: usize = 0;
    proof {
        assert(q.skip(0) =~= q);
    }
    while k < n
        invariant
            level.wf(),
            q == level.orders@,
            n == q.len(),
            price == level.limit_price,
            k <= n,
            level_walk(q, level.size, level.total_volume, price, remaining) == level_walk(
                q.skip(k as int),
                size,
                volume,
                price,
                rem,
            ),
            k < n ==> totals_ok(q.skip(k as int), size, volume, price),
        decreases n - k,
    {
        let ghost tail = q.skip(k as int);
        proof {
            assert(tail[0] == q[k as int]);
            assert(views(tail) =~= views(q).skip(k as int));
            assert forall|j: int| 0 <= j < views(tail).len() implies (
            #[trigger] views(tail)[j]).limit_price == price@ && views(tail)[j].shares > 0 by {
                assert(views(tail)[j] == views(q)[j + k]);
            }
            assert(queue_priced(views(tail), price@));
            assert(tail.remove(0) =~= q.skip(k + 1));
            use_type_invariant(&rem);
        }
        if !rem.is_positive() {
            return Some(rem);
        }
        let s: Decimal = level.orders[k].shares;
        if s.le(&rem) {
            let left = match rem.checked_sub(&s) {
                Some(v) => v,
                None => {
                    return None;
                },
            };
            let ghost size_before = size;
            let ghost volume_before = volume;
            if k + 1 < n {
                proof {
                    lemma_totals_remove(tail, size, volume, price, 0);
                }
                let value = s.checked_mul(&price).unwrap();
                size = size.checked_sub(&s).unwrap();
                volume = volume.checked_sub(&value).unwrap();
            }
            proof {
                let next = level_walk(
                    tail.remove(0),
                    size_before.difference_of(s),
                    volume_before.difference_of(s.product_of(price)),
                    price,
                    left,
                );
                assert(level_walk(tail, size_before, volume_before, price, rem) == next);
                if k + 1 == n {
                    assert(tail.remove(0).len() == 0);
                    assert(next == Some(left));
                    assert(level_walk(q.skip(k + 1), size, volume, price, left) == Some(left));
                }
            }
            rem = left;
            k = k + 1;
        } else {
            let exact: bool = size.checked_sub(&rem).is_some() && match rem.checked_mul(&price) {
                Some(v) => volume.checked_sub(&v).is_some(),
                None => false,
            };
            if exact {
                return Some(Decimal::zero());
            } else {
                return None;
            }
        }
    }
    Some(rem)
}

/// What would be left of a taker after it has met the side, or `None` where
/// a number could not be held exactly. The side is not changed.
pub(crate) fn forecast(
    levels: &Vec<Limit>,
    side: OrderType,
    from_low: bool,
    limit: Option<Decimal>,
    quantity: Decimal,
) -> (r: Option<Decimal>)
    requires
        side_wf(levels@, side),
    ensures
        r == side_walk(levels@, from_low, limit_view(limit), quantity),
{
    let ghost lim = limit_view(limit);
    let n: usize = levels.len();
    let mut rem: Decimal = quantity;
    let mut i: usize = 0;
    proof {
        assert(rest_of(levels@, from_low, 0) =~= levels@);
    }
    while i < n
        invariant
            side_wf(levels@, side),
            n == levels@.len(),
            i <= n,
            lim == limit_view(limit),
            side_walk(levels@, from_low, lim, quantity) == side_walk(
                rest_of(levels@, from_low, i as int),
                from_low,
                lim,
                rem,
            ),
        decreases n - i,
    {
        let ghost rest = rest_of(levels@, from_low, i as int);
        let b: usize = if from_low {
            i
        } else {
            n - 1 - i
        };
        proof {
            assert(rest.len() == n - i);
            assert(rest[best_of(rest.len(), from_low)] == levels@[b as int]);
            assert(rest.remove(best_of(rest.len(), from_low)) =~= rest_of(
                levels@,
                from_low,
                i + 1,
            ));
        }
        if !rem.is_positive() {
            return Some(rem);
        }
        let tradable: bool = match limit {
            None => true,
            Some(l) => if from_low {
                levels[b].limit_price.le(&l)
            } else {
                l.le(&levels[b].limit_price)
            },
        };
        if !tradable {
            return Some(rem);
        }
        match forecast_level(&levels[b], rem) {
            None => {
                return None;
            },
            Some(left) => {
                rem = left;
            },
        }
        i = i + 1;
    }
    Some(rem)
}

/// Why the side would refuse to let `order` rest, if it would.
pub(crate) fn check_rest(levels: &Vec<Limit>, order: &Order) -> (r: Option<BookError>)
    requires
        exists|side: OrderType| side_wf(levels@, side),
    ensures
        r == rest_rejection(levels@, *order),
{
    if !order.shares.is_positive() {
        return Some(BookError::InvalidSize);
    }
    let k: usize = find_level(levels, &order.limit_price);
    if k < levels.len() && levels[k].limit_price == order.limit_price {
        if levels[k].size.checked_add(&order.shares).is_none() {
            return Some(BookError::Overflow);
        }
        match order.shares.checked_mul(&levels[k].limit_price) {
            None => Some(BookError::Overflow),
            Some(value) => if levels[k].total_volume.checked_add(&value).is_none() {
                Some(BookError::Overflow)
            } else {
                None
            },
        }
    } else if order.shares.checked_mul(&order.limit_price).is_none() {
        Some(BookError::Overflow)
    } else {
        None
    }
}

impl LimitOrderBook {
    /// Why the book refuses to match `order`, if it does.
    ///
    /// An order is refused where its identifier rests in the book, where its
    /// size is not positive, and where a number of the match could not be
    /// held exactly. An order with a limit is also refused where what the
    /// match would leave of it could not rest.
    pub open spec fn match_rejection(&self, order: Order, limited: bool) -> Option<BookError> {
        if self.orders@.contains_key(order.exchange_id) {
            Some(BookError::DuplicateOrderId)
        } else if order.shares@ <= 0 {
            Some(BookError::InvalidSize)
        } else {
            match side_walk(
                self.side_levels(opposite(order.order_type)),
                order.order_type == OrderType::Bid,
                if limited {
                    Some(order.limit_price@)
                } else {
                    None
                },
                order.shares,
            ) {
                None => Some(BookError::Overflow),
                Some(left) => if limited && left@ > 0 {
                    rest_rejection(self.side_levels(order.order_type), with_shares(order, left))
                } else {
                    None
                },
            }
        }
    }

    /// How the book `after` is written once `order` has been matched and
    /// `left` is left of it: the other side as the walk leaves it, and the
    /// order's own side with what is left of the order, where it rests.
    pub open spec fn written_after(
        &self,
        after: &LimitOrderBook,
        order: Order,
        limited: bool,
        left: Decimal,
    ) -> bool {
        let other = opposite(order.order_type);
        &&& Some(left) == side_walk(
            self.side_levels(other),
            order.order_type == OrderType::Bid,
            if limited {
                Some(order.limit_price@)
            } else {
                None
            },
            order.shares,
        )
        &&& side_written(after.side_levels(other)) == walk_written(
            side_written(self.side_levels(other)),
            order.order_type == OrderType::Bid,
            if limited {
                Some(order.limit_price@)
            } else {
                None
            },
            order.shares,
        )
        &&& if limited && left@ > 0 {
            with_order(
                self.side_levels(order.order_type),
                after.side_levels(order.order_type),
                with_shares(order, left),
            )
        } else {
            after.side_levels(order.order_type) == self.side_levels(order.order_type)
        }
    }

    /// Matches the incoming `order` against the other side of the book.
    ///
    /// A bid takes from the asks, lowest price first; an ask from the bids,
    /// highest price first; within a price the earliest order trades first.
    /// Each resting order trades at its own price, for all of its size or for
    /// what is left of the incoming order, and leaves the book once nothing
    /// is left of it. With `limited`, matching stops at the first price
    /// beyond the order's limit price, and what is then left of the order
    /// comes to rest in the book; without, the order trades at any price and
    /// what is left of it is dropped. A refused order changes nothing.
    pub fn match_order(&mut self, order: Order, limited: bool) -> (r: Result<Execution, BookError>)
        requires
            old(self).wf(),
        ensures
            final(self).wf(),
            match r {
                Ok(e) => {
                    let m = old(self)@.matched(order@, limited);
                    &&& old(self).match_rejection(order, limited) is None
                    &&& final(self)@ == old(self)@.execute(order@, limited)
                    &&& fill_views(e.fills@) == m.fills
                    &&& e.remaining@ == m.remaining
                    &&& old(self).written_after(final(self), order, limited, e.remaining)
                },
                Err(e) => {
                    &&& old(self).match_rejection(order, limited) == Some(e)
                    &&& final(self).same_as(old(self))
                },
            },
    {
        broadcast use vstd::std_specs::hash::group_hash_axioms;

        if self.orders.contains_key(&order.exchange_id) {
            return Err(BookError::DuplicateOrderId);
        }
        if !order.shares.is_positive() {
            return Err(BookError::InvalidSize);
        }
        let limit: Option<Decimal> = if limited {
            Some(order.limit_price)
        } else {
            None
        };
        let left = match order.order_type {
            OrderType::Bid => forecast(&self.asks, OrderType::Ask, true, limit, order.shares),
            OrderType::Ask => forecast(&self.bids, OrderType::Bid, false, limit, order.shares),
        };
        let left: Decimal = match left {
            Some(v) => v,
            None => {
                return Err(BookError::Overflow);
            },
        };
        if limited && left.is_positive() {
            let part = order.with_shares(left);
            let refusal = match order.order_type {
                OrderType::Bid => check_rest(&self.bids, &part),
                OrderType::Ask => check_rest(&self.asks, &part),
            };
            match refusal {
                Some(e) => {
                    return Err(e);
                },
                None => {},
            }
        }
        let ghost before = *self;
        let done = match order.order_type {
            OrderType::Bid => {
                proof {
                    lemma_indexed_swap(self.orders@, self.bids@, self.asks@);
                }
                let e = match_side(
                    &mut self.asks,
                    &mut self.orders,
                    &self.bids,
                    OrderType::Ask,
                    true,
                    order.shares,
                    limit,
                    order.exchange_id,
                );
                proof {
                    lemma_indexed_swap(self.orders@, self.asks@, self.bids@);
                }
                e
            },
            OrderType::Ask => match_side(
                &mut self.bids,
                &mut self.orders,
                &self.asks,
                OrderType::Bid,
                false,
                order.shares,
                limit,
                order.exchange_id,
            ),
        };
        self.refresh_top();
        if limited && done.remaining.is_positive() {
            let part = order.with_shares(done.remaining);
            let rested = self.add_order(part);
            assert(rested is Ok);
        }
        Ok(done)
    }

    /// Matches the incoming `order` as a limit order: it trades against the
    /// other side as far as its limit price allows, and what is left of it
    /// comes to rest in the book.
    pub fn execute_order(&mut self, order: Order) -> (r: Result<Execution, BookError>)
        requires
            old(self).wf(),
        ensures
            final(self).wf(),
            match r {
                Ok(e) => {
                    let m = old(self)@.matched(order@, true);
                    &&& old(self).match_rejection(order, true) is None
                    &&& final(self)@ == old(self)@.execute(order@, true)
                    &&& fill_views(e.fills@) == m.fills
                    &&& e.remaining@ == m.remaining
                    &&& old(self).written_after(final(self), order, true, e.remaining)
                },
                Err(e) => {
                    &&& old(self).match_rejection(order, true) == Some(e)
                    &&& final(self).same_as(old(self))
                },
            },
    {
        self.match_order(order, true)
    }
}

} // verus!
