//! The queue of one price level, as the contracts see it: the resting orders
//! in time priority, earliest entry time first, and among equal entry times
//! in the order in which they came.

use crate::order::{OrderView, Timestamp};
use vstd::prelude::*;

verus! {

/// The sum of the remaining sizes.
pub open spec fn queue_size(q: Seq<OrderView>) -> int
    decreases q.len(),
{
    if q.len() == 0 {
        0
    } else {
        queue_size(q.drop_last()) + q.last().shares
    }
}

/// Whether an order with this identifier is in the queue.
pub open spec fn queue_has(q: Seq<OrderView>, id: u64) -> bool {
    exists|j: int| 0 <= j < q.len() && (#[trigger] q[j]).exchange_id == id
}

/// Where the order with this identifier stands in the queue.
pub open spec fn queue_position(q: Seq<OrderView>, id: u64) -> int {
    choose|j: int| 0 <= j < q.len() && (#[trigger] q[j]).exchange_id == id
}

/// Where an order that entered at `t` joins the queue: behind every order
/// that entered at `t` or earlier.
pub open spec fn arrival_position(q: Seq<OrderView>, t: Timestamp) -> int
    decreases q.len(),
{
    if q.len() == 0 {
        0
    } else if q.last().entry_time.not_after(t) {
        q.len() as int
    } else {
        arrival_position(q.drop_last(), t)
    }
}

/// The queue after `o` has joined it.
pub open spec fn enqueue(q: Seq<OrderView>, o: OrderView) -> Seq<OrderView> {
    q.insert(arrival_position(q, o.entry_time), o)
}

/// Every order is at `price` and has a positive size.
pub open spec fn queue_priced(q: Seq<OrderView>, price: int) -> bool {
    forall|j: int| 0 <= j < q.len() ==> (#[trigger] q[j]).limit_price == price && q[j].shares > 0
}

/// No identifier occurs twice.
pub open spec fn queue_distinct(q: Seq<OrderView>) -> bool {
    forall|i: int, j: int|
        0 <= i < j < q.len() ==> (#[trigger] q[i]).exchange_id != (#[trigger] q[j]).exchange_id
}

/// Earlier entry times come first.
pub open spec fn queue_in_time_order(q: Seq<OrderView>) -> bool {
    forall|i: int, j: int|
        0 <= i < j < q.len() ==> (#[trigger] q[i]).entry_time.not_after(
            (#[trigger] q[j]).entry_time,
        )
}

/// What holds of the queue of every price level.
pub open spec fn queue_ok(q: Seq<OrderView>, price: int) -> bool {
    &&& queue_priced(q, price)
    &&& queue_distinct(q)
    &&& queue_in_time_order(q)
}

pub proof fn lemma_queue_size_insert(q: Seq<OrderView>, k: int, o: OrderView)
    requires
        0 <= k <= q.len(),
    ensures
        queue_size(q.insert(k, o)) == queue_size(q) + o.shares,
    decreases q.len(),
{
    let r = q.insert(k, o);
    if k == q.len() {
        assert(r.drop_last() =~= q);
    } else {
        assert(r.drop_last() =~= q.drop_last().insert(k, o));
        assert(r.last() == q.last());
        lemma_queue_size_insert(q.drop_last(), k, o);
    }
}

pub proof fn lemma_queue_size_remove(q: Seq<OrderView>, k: int)
    requires
        0 <= k < q.len(),
    ensures
        queue_size(q.remove(k)) == queue_size(q) - q[k].shares,
    decreases q.len(),
{
    let r = q.remove(k);
    if k == q.len() - 1 {
        assert(r =~= q.drop_last());
    } else {
        assert(r.drop_last() =~= q.drop_last().remove(k));
        assert(r.last() == q.last());
        lemma_queue_size_remove(q.drop_last(), k);
    }
}

pub proof fn lemma_queue_size_update(q: Seq<OrderView>, k: int, o: OrderView)
    requires
        0 <= k < q.len(),
    ensures
        queue_size(q.update(k, o)) == queue_size(q) - q[k].shares + o.shares,
    decreases q.len(),
{
    let r = q.update(k, o);
    if k == q.len() - 1 {
        assert(r.drop_last() =~= q.drop_last());
    } else {
        assert(r.drop_last() =~= q.drop_last().update(k, o));
        assert(r.last() == q.last());
        lemma_queue_size_update(q.drop_last(), k, o);
    }
}

/// With positive sizes, no order is larger than the whole queue, and a queue
/// that is not empty has a positive size.
pub proof fn lemma_queue_size_bounds(q: Seq<OrderView>, price: int)
    requires
        queue_priced(q, price),
    ensures
        queue_size(q) >= 0,
        q.len() > 0 ==> queue_size(q) > 0,
        forall|j: int| 0 <= j < q.len() ==> (#[trigger] q[j]).shares <= queue_size(q),
    decreases q.len(),
{
    if q.len() > 0 {
        let p = q.drop_last();
        assert forall|j: int| 0 <= j < p.len() implies (#[trigger] p[j]).limit_price == price
            && p[j].shares > 0 by {
            assert(p[j] == q[j]);
        }
        lemma_queue_size_bounds(p, price);
        assert(q.last() == q[q.len() - 1]);
        assert forall|j: int| 0 <= j < q.len() implies (#[trigger] q[j]).shares <= queue_size(
            q,
        ) by {
            if j < q.len() - 1 {
                assert(p[j] == q[j]);
            }
        }
    }
}

/// Where a new order joins, everything in front of it entered no later and
/// everything behind it entered later.
pub proof fn lemma_arrival_position(q: Seq<OrderView>, t: Timestamp)
    requires
        queue_in_time_order(q),
    ensures
        0 <= arrival_position(q, t) <= q.len(),
        forall|i: int|
            0 <= i < arrival_position(q, t) ==> (#[trigger] q[i]).entry_time.not_after(t),
        forall|j: int|
            arrival_position(q, t) <= j < q.len() ==> !(#[trigger] q[j]).entry_time.not_after(t),
    decreases q.len(),
{
    if q.len() > 0 {
        let p = q.drop_last();
        assert forall|i: int, j: int| 0 <= i < j < p.len() implies (#[trigger] p[i]).entry_time.not_after(
            (#[trigger] p[j]).entry_time,
        ) by {
            assert(p[i] == q[i] && p[j] == q[j]);
        }
        if q.last().entry_time.not_after(t) {
            assert forall|i: int| 0 <= i < q.len() implies (#[trigger] q[i]).entry_time.not_after(
                t,
            ) by {
                if i < q.len() - 1 {
                    assert(q[i].entry_time.not_after(q[q.len() - 1].entry_time));
                }
            }
        } else {
            lemma_arrival_position(p, t);
            let a = arrival_position(p, t);
            assert forall|i: int| 0 <= i < a implies (#[trigger] q[i]).entry_time.not_after(t) by {
                assert(p[i] == q[i]);
            }
            assert forall|j: int| a <= j < q.len() implies !(#[trigger] q[j]).entry_time.not_after(
                t,
            ) by {
                if j < q.len() - 1 {
                    assert(p[j] == q[j]);
                }
            }
        }
    }
}

/// A well-formed queue stays well formed when an order with a new identifier,
/// the queue's price and a positive size joins it.
pub proof fn lemma_enqueue_ok(q: Seq<OrderView>, price: int, o: OrderView)
    requires
        queue_ok(q, price),
        !queue_has(q, o.exchange_id),
        o.limit_price == price,
        o.shares > 0,
    ensures
        queue_ok(enqueue(q, o), price),
        queue_size(enqueue(q, o)) == queue_size(q) + o.shares,
        queue_has(enqueue(q, o), o.exchange_id),
        enqueue(q, o).len() == q.len() + 1,
{
    let k = arrival_position(q, o.entry_time);
    lemma_arrival_position(q, o.entry_time);
    lemma_queue_size_insert(q, k, o);
    let r = enqueue(q, o);
    assert(r[k] == o);
    assert forall|i: int, j: int| 0 <= i < j < r.len() implies (#[trigger] r[i]).exchange_id != (
    #[trigger] r[j]).exchange_id && r[i].entry_time.not_after(r[j].entry_time) by {
        let a = if i < k {
            i
        } else {
            i - 1
        };
        let b = if j < k {
            j
        } else {
            j - 1
        };
        if i == k {
            assert(r[j] == q[b]);
        } else if j == k {
            assert(r[i] == q[a]);
        } else {
            assert(r[i] == q[a]);
            assert(r[j] == q[b]);
        }
    }
    assert forall|j: int| 0 <= j < r.len() implies (#[trigger] r[j]).limit_price == price
        && r[j].shares > 0 by {
        if j < k {
            assert(r[j] == q[j]);
        } else if j > k {
            assert(r[j] == q[j - 1]);
        }
    }
}

/// A well-formed queue stays well formed when an order leaves it.
pub proof fn lemma_remove_ok(q: Seq<OrderView>, price: int, k: int)
    requires
        queue_ok(q, price),
        0 <= k < q.len(),
    ensures
        queue_ok(q.remove(k), price),
        queue_size(q.remove(k)) == queue_size(q) - q[k].shares,
        !queue_has(q.remove(k), q[k].exchange_id),
        forall|id: u64| id != q[k].exchange_id ==> queue_has(q.remove(k), id) == queue_has(q, id),
{
    lemma_queue_size_remove(q, k);
    let r = q.remove(k);
    assert forall|j: int| 0 <= j < r.len() implies (#[trigger] r[j]).limit_price == price
        && r[j].shares > 0 by {
        if j < k {
            assert(r[j] == q[j]);
        } else {
            assert(r[j] == q[j + 1]);
        }
    }
    assert forall|i: int, j: int| 0 <= i < j < r.len() implies (#[trigger] r[i]).exchange_id != (
    #[trigger] r[j]).exchange_id && r[i].entry_time.not_after(r[j].entry_time) by {
        let a = if i < k {
            i
        } else {
            i + 1
        };
        let b = if j < k {
            j
        } else {
            j + 1
        };
        assert(r[i] == q[a]);
        assert(r[j] == q[b]);
    }
    assert forall|j: int| 0 <= j < r.len() implies (#[trigger] r[j]).exchange_id
        != q[k].exchange_id by {
        if j < k {
            assert(r[j] == q[j]);
        } else {
            assert(r[j] == q[j + 1]);
        }
    }
    assert forall|id: u64| id != q[k].exchange_id implies queue_has(r, id) == queue_has(q, id) by {
        if queue_has(q, id) {
            let j = queue_position(q, id);
            if j < k {
                assert(r[j] == q[j]);
            } else {
                assert(r[j - 1] == q[j]);
            }
        }
        if queue_has(r, id) {
            let j = queue_position(r, id);
            if j < k {
                assert(r[j] == q[j]);
            } else {
                assert(r[j] == q[j + 1]);
            }
        }
    }
}

/// A well-formed queue stays well formed when one of its orders is left with
/// a smaller, still positive, size.
pub proof fn lemma_reduce_ok(q: Seq<OrderView>, price: int, k: int, shares: int)
    requires
        queue_ok(q, price),
        0 <= k < q.len(),
        shares > 0,
    ensures
        queue_ok(q.update(k, q[k].with_shares(shares)), price),
        queue_size(q.update(k, q[k].with_shares(shares))) == queue_size(q) - q[k].shares + shares,
        forall|id: u64| queue_has(q.update(k, q[k].with_shares(shares)), id) == queue_has(q, id),
{
    let o = q[k].with_shares(shares);
    lemma_queue_size_update(q, k, o);
    let r = q.update(k, o);
    assert forall|i: int, j: int| 0 <= i < j < r.len() implies (#[trigger] r[i]).exchange_id != (
    #[trigger] r[j]).exchange_id && r[i].entry_time.not_after(r[j].entry_time) by {
        assert(r[i].exchange_id == q[i].exchange_id && r[i].entry_time == q[i].entry_time);
        assert(r[j].exchange_id == q[j].exchange_id && r[j].entry_time == q[j].entry_time);
    }
    assert forall|j: int| 0 <= j < r.len() implies (#[trigger] r[j]).limit_price == price
        && r[j].shares > 0 by {
        assert(r[j].limit_price == q[j].limit_price);
    }
    assert forall|id: u64| queue_has(r, id) == queue_has(q, id) by {
        if queue_has(q, id) {
            let j = queue_position(q, id);
            assert(r[j].exchange_id == q[j].exchange_id);
        }
        if queue_has(r, id) {
            let j = queue_position(r, id);
            assert(r[j].exchange_id == q[j].exchange_id);
        }
    }
}

/// In a queue without repeated identifiers, an order stands where its
/// identifier is found.
pub proof fn lemma_queue_position(q: Seq<OrderView>, k: int)
    requires
        queue_distinct(q),
        0 <= k < q.len(),
    ensures
        queue_has(q, q[k].exchange_id),
        queue_position(q, q[k].exchange_id) == k,
{
    let id = q[k].exchange_id;
    let j = queue_position(q, id);
    assert(q[j].exchange_id == id);
    if j < k {
        assert(q[j].exchange_id != q[k].exchange_id);
    }
    if k < j {
        assert(q[k].exchange_id != q[j].exchange_id);
    }
}

/// Scanning from the back, a new order joins right behind the last order
/// that entered no later than it.
pub proof fn lemma_arrival_position_is(q: Seq<OrderView>, t: Timestamp, k: int)
    requires
        0 <= k <= q.len(),
        forall|j: int| k <= j < q.len() ==> !(#[trigger] q[j]).entry_time.not_after(t),
        k > 0 ==> q[k - 1].entry_time.not_after(t),
    ensures
        arrival_position(q, t) == k,
    decreases q.len(),
{
    if q.len() > 0 {
        assert(q.last() == q[q.len() - 1]);
        if k < q.len() {
            let p = q.drop_last();
            assert forall|j: int| k <= j < p.len() implies !(#[trigger] p[j]).entry_time.not_after(
                t,
            ) by {
                assert(p[j] == q[j]);
            }
            if k > 0 {
                assert(p[k - 1] == q[k - 1]);
            }
            lemma_arrival_position_is(p, t, k);
        }
    }
}

/// One price level, as the contracts see it.
pub struct LevelView {
    pub price: int,
    pub orders: Seq<OrderView>,
}

impl LevelView {
    /// The total remaining size of the level.
    pub open spec fn size(self) -> int {
        queue_size(self.orders)
    }

    /// The total size times the price: the notional value in units of `10^-56`.
    pub open spec fn notional(self) -> int {
        queue_size(self.orders) * self.price
    }

    /// A level of the book: it holds at least one order, and its queue is
    /// well formed.
    pub open spec fn ok(self) -> bool {
        self.orders.len() > 0 && queue_ok(self.orders, self.price)
    }
}

/// Every order is still at the price, with a positive size, when one of
/// them leaves the queue.
pub proof fn lemma_remove_ok_priced(q: Seq<OrderView>, price: int, k: int)
    requires
        queue_priced(q, price),
        0 <= k < q.len(),
    ensures
        queue_priced(q.remove(k), price),
{
    let r = q.remove(k);
    assert forall|j: int| 0 <= j < r.len() implies (#[trigger] r[j]).limit_price == price
        && r[j].shares > 0 by {
        if j < k {
            assert(r[j] == q[j]);
        } else {
            assert(r[j] == q[j + 1]);
        }
    }
}

} // verus!
