//! One side of the book: its price levels, held in ascending order of price.

use crate::decimal::Decimal;
use crate::levels::{ascending, best_index, has_level, lemma_rank_is, lemma_rank_of_level, lemma_side_count_insert, lemma_side_count_remove, lemma_side_count_update, lemma_side_insert, lemma_side_remove, lemma_side_update, level_on_side, orders_at, pull_order, rank, rest_order, side_count, side_has, side_ok, with_front_reduced, without_front};
use crate::limit::{with_shares, Limit, Written};
use crate::order::{BookError, Order, OrderType};
use crate::queue::{lemma_queue_position, lemma_queue_size_bounds, queue_has, queue_position, LevelView};
use vstd::prelude::*;

verus! {

/// The levels that a vector of price levels stands for.
pub open spec fn side_view(levels: Seq<Limit>) -> Seq<LevelView> {
    levels.map_values(|l: Limit| l@)
}

/// The levels of a side as they are written.
pub open spec fn side_written(levels: Seq<Limit>) -> Seq<Written> {
    levels.map_values(|l: Limit| l.written())
}

/// Every level is well formed and the side as a whole is: no level is empty,
/// every order is on `side`, and prices strictly ascend.
pub open spec fn side_wf(levels: Seq<Limit>, side: OrderType) -> bool {
    &&& forall|k: int| 0 <= k < levels.len() ==> (#[trigger] levels[k]).wf()
    &&& side_ok(side_view(levels), side)
}

/// Whether the order `o`, exactly as it is, rests in one of the levels.
pub open spec fn rests(levels: Seq<Limit>, o: Order) -> bool {
    exists|k: int| 0 <= k < levels.len() && (#[trigger] levels[k]).orders@.contains(o)
}

/// Why the side refuses to let `order` rest, if it does: its size is not
/// positive, or a total of the level at its price could not be held exactly.
/// A level that is yet to be made starts from zero, so that only the order's
/// own notional value can fail there.
pub open spec fn rest_rejection(levels: Seq<Limit>, order: Order) -> Option<BookError> {
    let v = side_view(levels);
    let k = rank(v, order.limit_price@);
    if order.shares@ <= 0 {
        Some(BookError::InvalidSize)
    } else if has_level(v, order.limit_price@) {
        if !levels[k].size.can_add(order.shares) || !order.shares.can_mul(levels[k].limit_price)
            || !levels[k].total_volume.can_add(order.shares.product_of(levels[k].limit_price)) {
            Some(BookError::Overflow)
        } else {
            None
        }
    } else if !order.shares.can_mul(order.limit_price) {
        Some(BookError::Overflow)
    } else {
        None
    }
}

/// An order in a level of the side rests on the side, and the side has its
/// identifier.
pub proof fn lemma_rests_at(levels: Seq<Limit>, k: int, j: int)
    requires
        0 <= k < levels.len(),
        0 <= j < levels[k].orders@.len(),
    ensures
        rests(levels, levels[k].orders@[j]),
        side_has(side_view(levels), levels[k].orders@[j].exchange_id),
{
    assert(levels[k].orders@.contains(levels[k].orders@[j]));
    assert(side_view(levels)[k].orders[j] == levels[k].orders@[j]@);
    assert(queue_has(side_view(levels)[k].orders, levels[k].orders@[j].exchange_id));
}

/// An order that rests on a well-formed side is on that side, stands in the
/// level at its price, and is the only resting order with its identifier at
/// that price.
pub proof fn lemma_rests_where(levels: Seq<Limit>, side: OrderType, o: Order)
    requires
        side_wf(levels, side),
        rests(levels, o),
    ensures
        o.order_type == side,
        has_level(side_view(levels), o.limit_price@),
        levels[rank(side_view(levels), o.limit_price@)].orders@.contains(o),
        queue_has(orders_at(side_view(levels), o.limit_price@), o.exchange_id),
        side_has(side_view(levels), o.exchange_id),
{
    let v = side_view(levels);
    let k = choose|k: int| 0 <= k < levels.len() && (#[trigger] levels[k]).orders@.contains(o);
    let j = choose|j: int| 0 <= j < levels[k].orders@.len() && levels[k].orders@[j] == o;
    assert(v[k].ok() && level_on_side(v[k], side));
    assert(v[k].orders[j] == o@);
    lemma_rank_of_level(v, k);
    lemma_rests_at(levels, k, j);
}

/// Where the level at `price` stands on the side, or would stand: the number
/// of levels priced below `price`.
pub(crate) fn find_level(levels: &Vec<Limit>, price: &Decimal) -> (k: usize)
    requires
        ascending(side_view(levels@)),
    ensures
        k == rank(side_view(levels@), price@),
        k <= levels@.len(),
        has_level(side_view(levels@), price@) <==> (k < levels@.len() && levels@[k as int].limit_price@
            == price@),
{
    let ghost v = side_view(levels@);
    let mut lo: usize = 0;
    let mut hi: usize = levels.len();
    while lo < hi
        invariant
            v == side_view(levels@),
            ascending(v),
            0 <= lo <= hi <= levels@.len(),
            forall|i: int| 0 <= i < lo ==> (#[trigger] v[i]).price < price@,
            forall|i: int| hi <= i < v.len() ==> (#[trigger] v[i]).price >= price@,
        decreases hi - lo,
    {
        let mid: usize = lo + (hi - lo) / 2;
        assert(v[mid as int].price == levels@[mid as int].limit_price@);
        if levels[mid].limit_price.lt(price) {
            assert forall|i: int| 0 <= i < mid + 1 implies (#[trigger] v[i]).price < price@ by {
                if i < mid {
                    assert(v[i].price < v[mid as int].price);
                }
            }
            lo = mid + 1;
        } else {
            assert forall|i: int| mid <= i < v.len() implies (#[trigger] v[i]).price >= price@ by {
                if i > mid {
                    assert(v[mid as int].price < v[i].price);
                }
            }
            hi = mid;
        }
    }
    proof {
        lemma_rank_is(v, price@, lo as int);
        if lo < levels@.len() {
            assert(v[lo as int].price == levels@[lo as int].limit_price@);
        }
    }
    lo
}

/// How the levels stand after `order` has come to rest: the level at its
/// price holds it in its queue and in its totals, which are the sums as they
/// are written; a level that had to be made starts from plain zero.
pub open spec fn with_order(before: Seq<Limit>, after: Seq<Limit>, order: Order) -> bool {
    let v = side_view(before);
    let k = rank(v, order.limit_price@);
    if has_level(v, order.limit_price@) {
        &&& after.len() == before.len()
        &&& forall|i: int| 0 <= i < before.len() && i != k ==> #[trigger] after[i] == before[i]
        &&& after[k].limit_price == before[k].limit_price
        &&& after[k].orders@ == before[k].orders@.insert(
            crate::queue::arrival_position(v[k].orders, order.entry_time),
            order,
        )
        &&& after[k].size == before[k].size.sum_of(order.shares)
        &&& after[k].total_volume == before[k].total_volume.sum_of(
            order.shares.product_of(before[k].limit_price),
        )
    } else {
        &&& after.len() == before.len() + 1
        &&& forall|i: int| 0 <= i < k ==> #[trigger] after[i] == before[i]
        &&& forall|i: int| k <= i < before.len() ==> after[i + 1] == #[trigger] before[i]
        &&& after[k].limit_price == order.limit_price
        &&& after[k].orders@ == seq![order]
        &&& after[k].size == Decimal::zero_value().sum_of(order.shares)
        &&& after[k].total_volume == Decimal::zero_value().sum_of(
            order.shares.product_of(order.limit_price),
        )
    }
}

/// Lets `order` rest on the side: it joins the level at its price, which is
/// created where it is missing. A refused order changes nothing.
pub(crate) fn rest(levels: &mut Vec<Limit>, order: Order) -> (r: Result<(), BookError>)
    requires
        side_wf(old(levels)@, order.order_type),
        !side_has(side_view(old(levels)@), order.exchange_id),
    ensures
        side_wf(final(levels)@, order.order_type),
        match r {
            Ok(_) => {
                &&& rest_rejection(old(levels)@, order) is None
                &&& side_view(final(levels)@) == rest_order(side_view(old(levels)@), order@)
                &&& with_order(old(levels)@, final(levels)@, order)
                &&& forall|o: Order| #[trigger]
                    rests(final(levels)@, o) <==> rests(old(levels)@, o) || o == order
                &&& side_count(side_view(final(levels)@)) == side_count(side_view(old(levels)@))
                    + 1
            },
            Err(e) => rest_rejection(old(levels)@, order) == Some(e) && final(levels)@
                == old(levels)@,
        },
{
    let ghost before = levels@;
    let ghost v = side_view(before);
    let ghost side = order.order_type;
    let k: usize = find_level(levels, &order.limit_price);
    if k < levels.len() && levels[k].limit_price == order.limit_price {
        proof {
            assert(v[k as int] == before[k as int]@);
            assert(!queue_has(v[k as int].orders, order.exchange_id));
            lemma_queue_size_bounds(v[k as int].orders, v[k as int].price);
        }
        let r = levels[k].add_order(order);
        proof {
            let after = levels@;
            let w = side_view(after);
            match r {
                Ok(_) => {
                    assert(w =~= v.update(k as int, after[k as int]@));
                    assert(after[k as int]@.ok());
                    assert forall|j: int| 0 <= j < after[k as int]@.orders.len() implies (
                    #[trigger] after[k as int]@.orders[j]).order_type == side by {
                        let a = crate::queue::arrival_position(v[k as int].orders, order.entry_time);
                        crate::queue::lemma_arrival_position(v[k as int].orders, order.entry_time);
                        if j < a {
                            assert(after[k as int]@.orders[j] == v[k as int].orders[j]);
                        } else if j > a {
                            assert(after[k as int]@.orders[j] == v[k as int].orders[j - 1]);
                        }
                    }
                    lemma_side_update(v, side, k as int, after[k as int]@);
                    lemma_side_count_update(v, k as int, after[k as int]@);
                    assert forall|i: int| 0 <= i < after.len() implies (#[trigger] after[i]).wf() by {
                        if i != k {
                            assert(after[i] == before[i]);
                        }
                    }
                    crate::queue::lemma_arrival_position(v[k as int].orders, order.entry_time);
                    assert(after[k as int].orders@ == before[k as int].orders@.insert(
                        crate::queue::arrival_position(v[k as int].orders, order.entry_time),
                        order,
                    ));
                    lemma_rests_insert(before, after, k as int, order);
                },
                Err(e) => {
                    assert(after =~= before);
                },
            }
        }
        r
    } else {
        let mut level = Limit::new(order.limit_price);
        proof {
            assert(!has_level(v, order.limit_price@));
            crate::decimal::Decimal::lemma_zero_value();
            level.size.lemma_with_zero(order.shares);
            level.total_volume.lemma_with_zero(order.shares.product_of(order.limit_price));
        }
        match level.add_order(order) {
            Ok(_) => {
                levels.insert(k, level);
                proof {
                    let after = levels@;
                    let w = side_view(after);
                    assert(level@.orders =~= seq![order@]);
                    assert(w =~= v.insert(k as int, level@));
                    assert(level_on_side(level@, side));
                    lemma_side_insert(v, side, level@);
                    lemma_side_count_insert(v, k as int, level@);
                    assert forall|i: int| 0 <= i < after.len() implies (#[trigger] after[i]).wf() by {
                        if i < k {
                            assert(after[i] == before[i]);
                        } else if i > k {
                            assert(after[i] == before[i - 1]);
                        }
                    }
                    assert(level.orders@ =~= seq![order]);
                    assert forall|o: Order| #[trigger]
                        rests(after, o) <==> rests(before, o) || o == order by {
                        if rests(before, o) {
                            let i = choose|i: int|
                                0 <= i < before.len() && (#[trigger] before[i]).orders@.contains(o);
                            let ii = if i < k {
                                i
                            } else {
                                i + 1
                            };
                            assert(after[ii] == before[i]);
                        }
                        if o == order {
                            assert(level.orders@[0] == order);
                            assert(after[k as int].orders@.contains(o));
                        }
                        if rests(after, o) {
                            let i = choose|i: int|
                                0 <= i < after.len() && (#[trigger] after[i]).orders@.contains(o);
                            if i < k {
                                assert(after[i] == before[i]);
                            } else if i > k {
                                assert(after[i] == before[i - 1]);
                            } else {
                                let j = choose|j: int|
                                    0 <= j < level.orders@.len() && level.orders@[j] == o;
                            }
                        }
                    }
                }
                Ok(())
            },
            Err(e) => Err(e),
        }
    }
}

/// What rests on a side after an order has joined the queue of one level.
proof fn lemma_rests_insert(before: Seq<Limit>, after: Seq<Limit>, k: int, order: Order)
    requires
        0 <= k < before.len(),
        after.len() == before.len(),
        forall|i: int| 0 <= i < before.len() && i != k ==> #[trigger] after[i] == before[i],
        exists|a: int|
            0 <= a <= before[k].orders@.len() && after[k].orders@ == before[k].orders@.insert(
                a,
                order,
            ),
    ensures
        forall|o: Order| #[trigger] rests(after, o) <==> rests(before, o) || o == order,
{
    let a = choose|a: int|
        0 <= a <= before[k].orders@.len() && after[k].orders@ == before[k].orders@.insert(a, order);
    let old_q = before[k].orders@;
    let new_q = after[k].orders@;
    assert forall|o: Order| #[trigger] rests(after, o) <==> rests(before, o) || o == order by {
        if rests(before, o) {
            let i = choose|i: int|
                0 <= i < before.len() && (#[trigger] before[i]).orders@.contains(o);
            if i != k {
                assert(after[i] == before[i]);
            } else {
                let j = choose|j: int| 0 <= j < old_q.len() && old_q[j] == o;
                let jj = if j < a {
                    j
                } else {
                    j + 1
                };
                assert(new_q[jj] == o);
                assert(after[k].orders@.contains(o));
            }
        }
        if o == order {
            assert(new_q[a] == order);
            assert(after[k].orders@.contains(o));
        }
        if rests(after, o) {
            let i = choose|i: int| 0 <= i < after.len() && (#[trigger] after[i]).orders@.contains(o);
            if i != k {
                assert(after[i] == before[i]);
            } else {
                let j = choose|j: int| 0 <= j < new_q.len() && new_q[j] == o;
                if j < a {
                    assert(old_q[j] == o);
                    assert(before[k].orders@.contains(o));
                } else if j > a {
                    assert(old_q[j - 1] == o);
                    assert(before[k].orders@.contains(o));
                }
            }
        }
    }
}

/// What rests on a well-formed side after the order at place `j` of level `k`
/// has left its queue, or been replaced there.
proof fn lemma_rests_without(
    before: Seq<Limit>,
    side: OrderType,
    k: int,
    j: int,
    o: Order,
)
    requires
        side_wf(before, side),
        0 <= k < before.len(),
        0 <= j < before[k].orders@.len(),
        rests(before, o),
        o != before[k].orders@[j],
    ensures
        (exists|i: int|
            0 <= i < before.len() && i != k && (#[trigger] before[i]).orders@.contains(o)) || (
        exists|x: int| 0 <= x < before[k].orders@.len() && x != j && before[k].orders@[x] == o),
{
    let i = choose|i: int| 0 <= i < before.len() && (#[trigger] before[i]).orders@.contains(o);
    if i == k {
        let x = choose|x: int| 0 <= x < before[k].orders@.len() && before[k].orders@[x] == o;
        assert(x != j);
    }
}

/// An order of another level, or at another place of the same level, is not
/// the order at place `j` of level `k`.
proof fn lemma_rests_distinct(before: Seq<Limit>, side: OrderType, k: int, j: int, i: int, x: int)
    requires
        side_wf(before, side),
        0 <= k < before.len(),
        0 <= j < before[k].orders@.len(),
        0 <= i < before.len(),
        0 <= x < before[i].orders@.len(),
        i != k || x != j,
    ensures
        before[i].orders@[x] != before[k].orders@[j],
{
    let v = side_view(before);
    assert(v[i].ok() && v[k].ok());
    assert(v[i].orders[x] == before[i].orders@[x]@);
    assert(v[k].orders[j] == before[k].orders@[j]@);
    if i != k {
        if i < k {
            assert(v[i].price < v[k].price);
        } else {
            assert(v[k].price < v[i].price);
        }
        assert(v[i].orders[x].limit_price == v[i].price);
        assert(v[k].orders[j].limit_price == v[k].price);
    } else {
        if x < j {
            assert(v[k].orders[x].exchange_id != v[k].orders[j].exchange_id);
        } else {
            assert(v[k].orders[j].exchange_id != v[k].orders[x].exchange_id);
        }
    }
}

/// What rests on a well-formed side after the order at place `j` of level
/// `k` has left, whether its level has gone with it or not.
proof fn lemma_rests_leave(before: Seq<Limit>, after: Seq<Limit>, side: OrderType, k: int, j: int)
    requires
        side_wf(before, side),
        0 <= k < before.len(),
        0 <= j < before[k].orders@.len(),
        if before[k].orders@.len() == 1 {
            after == before.remove(k)
        } else {
            &&& after.len() == before.len()
            &&& forall|i: int| 0 <= i < before.len() && i != k ==> #[trigger] after[i] == before[i]
            &&& after[k].orders@ == before[k].orders@.remove(j)
        },
    ensures
        forall|x: Order| #[trigger]
            rests(after, x) <==> rests(before, x) && x != before[k].orders@[j],
{
    let o = before[k].orders@[j];
    assert(before[k].orders@.contains(o));
    assert forall|x: Order| #[trigger] rests(after, x) <==> rests(before, x) && x != o by {
        if before[k].orders@.len() == 1 {
            if rests(after, x) {
                let i = choose|i: int|
                    0 <= i < after.len() && (#[trigger] after[i]).orders@.contains(x);
                let ii = if i < k {
                    i
                } else {
                    i + 1
                };
                assert(after[i] == before[ii]);
                let y = choose|y: int|
                    0 <= y < before[ii].orders@.len() && before[ii].orders@[y] == x;
                lemma_rests_distinct(before, side, k, j, ii, y);
            }
            if rests(before, x) && x != o {
                lemma_rests_without(before, side, k, j, x);
                let i = choose|i: int|
                    0 <= i < before.len() && i != k && (
                    #[trigger] before[i]).orders@.contains(x);
                let ii = if i < k {
                    i
                } else {
                    i - 1
                };
                assert(after[ii] == before[i]);
            }
        } else {
            if rests(after, x) {
                let i = choose|i: int|
                    0 <= i < after.len() && (#[trigger] after[i]).orders@.contains(x);
                let y = choose|y: int|
                    0 <= y < after[i].orders@.len() && after[i].orders@[y] == x;
                if i != k {
                    assert(after[i] == before[i]);
                    lemma_rests_distinct(before, side, k, j, i, y);
                } else {
                    let yy = if y < j {
                        y
                    } else {
                        y + 1
                    };
                    assert(before[k].orders@[yy] == x);
                    assert(before[k].orders@.contains(x));
                    lemma_rests_distinct(before, side, k, j, k, yy);
                }
            }
            if rests(before, x) && x != o {
                lemma_rests_without(before, side, k, j, x);
                if exists|i: int|
                    0 <= i < before.len() && i != k && (
                    #[trigger] before[i]).orders@.contains(x) {
                    let i = choose|i: int|
                        0 <= i < before.len() && i != k && (
                        #[trigger] before[i]).orders@.contains(x);
                    assert(after[i] == before[i]);
                } else {
                    let y = choose|y: int|
                        0 <= y < before[k].orders@.len() && y != j
                            && before[k].orders@[y] == x;
                    let yy = if y < j {
                        y
                    } else {
                        y - 1
                    };
                    assert(after[k].orders@[yy] == x);
                    assert(after[k].orders@.contains(x));
                }
            }
        }
    }
}

/// How the levels stand after the order at place `j` of level `k` has left:
/// the level is gone with its last order, or holds the other orders and the
/// totals less that order.
pub open spec fn without_order(before: Seq<Limit>, after: Seq<Limit>, k: int, j: int) -> bool {
    let level = before[k];
    let o = level.orders@[j];
    if level.orders@.len() == 1 {
        after == before.remove(k)
    } else {
        &&& after.len() == before.len()
        &&& forall|i: int| 0 <= i < before.len() && i != k ==> #[trigger] after[i] == before[i]
        &&& after[k].limit_price == level.limit_price
        &&& after[k].orders@ == level.orders@.remove(j)
        &&& after[k].size == level.size.difference_of(o.shares)
        &&& after[k].total_volume == level.total_volume.difference_of(
            o.shares.product_of(level.limit_price),
        )
    }
}

/// Takes the order `order_id` out of the level at `price`. The level leaves
/// the side with its last order. Where the level or the order is missing,
/// nothing changes.
pub(crate) fn pull(levels: &mut Vec<Limit>, side: OrderType, price: &Decimal, order_id: u64) -> (r: Result<
    Order,
    BookError,
>)
    requires
        side_wf(old(levels)@, side),
    ensures
        side_wf(final(levels)@, side),
        match r {
            Ok(o) => {
                &&& has_level(side_view(old(levels)@), price@)
                &&& queue_has(orders_at(side_view(old(levels)@), price@), order_id)
                &&& o.exchange_id == order_id
                &&& o.limit_price@ == price@
                &&& rests(old(levels)@, o)
                &&& o == old(levels)@[rank(side_view(old(levels)@), price@)].orders@[queue_position(
                    orders_at(side_view(old(levels)@), price@),
                    order_id,
                )]
                &&& side_view(final(levels)@) == pull_order(
                    side_view(old(levels)@),
                    price@,
                    order_id,
                )
                &&& without_order(
                    old(levels)@,
                    final(levels)@,
                    rank(side_view(old(levels)@), price@),
                    queue_position(orders_at(side_view(old(levels)@), price@), order_id),
                )
                &&& forall|x: Order| #[trigger]
                    rests(final(levels)@, x) <==> rests(old(levels)@, x) && x != o
                &&& side_count(side_view(final(levels)@)) == side_count(side_view(old(levels)@))
                    - 1
            },
            Err(e) => {
                &&& e == BookError::OrderNotFound
                &&& !(has_level(side_view(old(levels)@), price@) && queue_has(
                    orders_at(side_view(old(levels)@), price@),
                    order_id,
                ))
                &&& final(levels)@ == old(levels)@
            },
        },
{
    let ghost before = levels@;
    let ghost v = side_view(before);
    let k: usize = find_level(levels, price);
    if !(k < levels.len() && levels[k].limit_price == *price) {
        return Err(BookError::OrderNotFound);
    }
    proof {
        assert(v[k as int] == before[k as int]@);
    }
    let r = levels[k].remove_order(order_id);
    match r {
        Err(e) => {
            proof {
                assert(levels@ =~= before);
            }
            Err(e)
        },
        Ok(o) => {
            let ghost mid = levels@;
            let ghost j = queue_position(v[k as int].orders, order_id);
            proof {
                assert(mid[k as int].orders@ == before[k as int].orders@.remove(j));
                assert(side_view(mid) =~= v.update(k as int, mid[k as int]@));
                assert(before[k as int].orders@.contains(o));
                assert(v[k as int].orders[j] == o@);
                crate::queue::lemma_remove_ok(v[k as int].orders, v[k as int].price, j);
            }
            let emptied: bool = levels[k].is_empty();
            if emptied {
                levels.remove(k);
                proof {
                    let after = levels@;
                    assert(after =~= before.remove(k as int));
                    assert(side_view(after) =~= v.remove(k as int));
                    lemma_side_remove(v, side, k as int);
                    lemma_side_count_remove(v, k as int);
                    assert(before[k as int].orders@.len() == 1);
                    assert forall|i: int| 0 <= i < after.len() implies (#[trigger] after[i]).wf() by {
                        if i < k {
                            assert(after[i] == mid[i]);
                            assert(mid[i] == before[i]);
                        } else {
                            assert(after[i] == mid[i + 1]);
                            assert(mid[i + 1] == before[i + 1]);
                        }
                    }
                    lemma_rests_leave(before, after, side, k as int, j);
                }
            } else {
                proof {
                    let after = levels@;
                    assert forall|x: int| 0 <= x < mid[k as int]@.orders.len() implies (
                    #[trigger] mid[k as int]@.orders[x]).order_type == side by {
                        if x < j {
                            assert(mid[k as int]@.orders[x] == v[k as int].orders[x]);
                        } else {
                            assert(mid[k as int]@.orders[x] == v[k as int].orders[x + 1]);
                        }
                    }
                    lemma_side_update(v, side, k as int, mid[k as int]@);
                    lemma_side_count_update(v, k as int, mid[k as int]@);
                    assert forall|i: int| 0 <= i < after.len() implies (#[trigger] after[i]).wf() by {
                        if i != k {
                            assert(after[i] == before[i]);
                        }
                    }
                    lemma_rests_leave(before, after, side, k as int, j);
                }
            }
            Ok(o)
        },
    }
}

/// Takes the order at the front of the best level out of the side: it has
/// been filled completely.
pub(crate) fn take_front(levels: &mut Vec<Limit>, side: OrderType, from_low: bool) -> (r: Order)
    requires
        side_wf(old(levels)@, side),
        old(levels)@.len() > 0,
    ensures
        side_wf(final(levels)@, side),
        r == old(levels)@[best_index(side_view(old(levels)@), from_low)].orders@[0],
        rests(old(levels)@, r),
        side_view(final(levels)@) == without_front(side_view(old(levels)@), from_low),
        without_order(
            old(levels)@,
            final(levels)@,
            best_index(side_view(old(levels)@), from_low),
            0,
        ),
        forall|x: Order| #[trigger] rests(final(levels)@, x) <==> rests(old(levels)@, x) && x != r,
        side_count(side_view(final(levels)@)) == side_count(side_view(old(levels)@)) - 1,
{
    let ghost before = levels@;
    let ghost v = side_view(before);
    let b: usize = if from_low {
        0
    } else {
        levels.len() - 1
    };
    proof {
        assert(v[b as int] == before[b as int]@);
        assert(v[b as int].ok());
        assert(v[b as int].orders[0] == before[b as int].orders@[0]@);
        lemma_rank_of_level(v, b as int);
        lemma_queue_position(v[b as int].orders, 0);
    }
    let price: Decimal = levels[b].limit_price;
    let id: u64 = levels[b].orders[0].exchange_id;
    let r = pull(levels, side, &price, id);
    r.unwrap()
}

/// Takes `quantity` off the order at the front of the best level, which
/// stays where it is with what is left. Returns that order as it now is.
pub(crate) fn reduce_front(levels: &mut Vec<Limit>, side: OrderType, from_low: bool, quantity: &Decimal) -> (r:
    Order)
    requires
        side_wf(old(levels)@, side),
        old(levels)@.len() > 0,
        0 < quantity@ < side_view(old(levels)@)[best_index(
            side_view(old(levels)@),
            from_low,
        )].orders[0].shares,
        old(levels)@[best_index(side_view(old(levels)@), from_low)].can_reduce(*quantity),
    ensures
        side_wf(final(levels)@, side),
        ({
            let front = old(levels)@[best_index(side_view(old(levels)@), from_low)].orders@[0];
            &&& r == with_shares(front, front.shares.difference_of(*quantity))
            &&& r.shares@ == front.shares@ - quantity@
            &&& rests(old(levels)@, front)
            &&& forall|x: Order| #[trigger]
                rests(final(levels)@, x) <==> (rests(old(levels)@, x) && x != front) || x == r
        }),
        side_view(final(levels)@) == with_front_reduced(
            side_view(old(levels)@),
            from_low,
            quantity@,
        ),
        ({
            let b = best_index(side_view(old(levels)@), from_low);
            let level = old(levels)@[b];
            side_written(final(levels)@) == side_written(old(levels)@).update(
                b,
                Written {
                    price: level.limit_price,
                    orders: level.orders@.update(
                        0,
                        with_shares(level.orders@[0], level.orders@[0].shares.difference_of(*quantity)),
                    ),
                    size: level.size.difference_of(*quantity),
                    volume: level.total_volume.difference_of(
                        quantity.product_of(level.limit_price),
                    ),
                },
            )
        }),
        side_count(side_view(final(levels)@)) == side_count(side_view(old(levels)@)),
{
    let ghost before = levels@;
    let ghost v = side_view(before);
    let b: usize = if from_low {
        0
    } else {
        levels.len() - 1
    };
    proof {
        assert(v[b as int] == before[b as int]@);
        assert(v[b as int].ok());
        assert(v[b as int].orders[0] == before[b as int].orders@[0]@);
    }
    let r = levels[b].reduce_front(quantity);
    proof {
        let after = levels@;
        let front = before[b as int].orders@[0];
        assert(side_written(after) =~= side_written(before).update(
            b as int,
            after[b as int].written(),
        ));
        assert(side_view(after) =~= v.update(b as int, after[b as int]@));
        crate::queue::lemma_reduce_ok(
            v[b as int].orders,
            v[b as int].price,
            0,
            v[b as int].orders[0].shares - quantity@,
        );
        assert forall|x: int| 0 <= x < after[b as int]@.orders.len() implies (
        #[trigger] after[b as int]@.orders[x]).order_type == side by {
            assert(after[b as int]@.orders[x].order_type == v[b as int].orders[x].order_type);
        }
        lemma_side_update(v, side, b as int, after[b as int]@);
        lemma_side_count_update(v, b as int, after[b as int]@);
        assert forall|i: int| 0 <= i < after.len() implies (#[trigger] after[i]).wf() by {
            if i != b {
                assert(after[i] == before[i]);
            }
        }
        assert(before[b as int].orders@.contains(front));
        assert forall|x: Order| #[trigger]
            rests(after, x) <==> (rests(before, x) && x != front) || x == r by {
            if rests(after, x) {
                let i = choose|i: int|
                    0 <= i < after.len() && (#[trigger] after[i]).orders@.contains(x);
                let y = choose|y: int| 0 <= y < after[i].orders@.len() && after[i].orders@[y] == x;
                if i != b {
                    assert(after[i] == before[i]);
                    lemma_rests_distinct(before, side, b as int, 0, i, y);
                } else if y != 0 {
                    assert(before[b as int].orders@[y] == x);
                    assert(before[b as int].orders@.contains(x));
                    lemma_rests_distinct(before, side, b as int, 0, b as int, y);
                }
            }
            if x == r {
                assert(after[b as int].orders@[0] == r);
                assert(after[b as int].orders@.contains(x));
            }
            if rests(before, x) && x != front {
                lemma_rests_without(before, side, b as int, 0, x);
                if exists|i: int|
                    0 <= i < before.len() && i != b && (#[trigger] before[i]).orders@.contains(x) {
                    let i = choose|i: int|
                        0 <= i < before.len() && i != b && (#[trigger] before[i]).orders@.contains(
                            x,
                        );
                    assert(after[i] == before[i]);
                } else {
                    let y = choose|y: int|
                        0 <= y < before[b as int].orders@.len() && y != 0
                            && before[b as int].orders@[y] == x;
                    assert(after[b as int].orders@[y] == x);
                    assert(after[b as int].orders@.contains(x));
                }
            }
        }
    }
    r
}

} // verus!
