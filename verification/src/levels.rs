//! One side of the book, as the contracts see it: its price levels in
//! ascending order of price, and what resting, cancelling and matching do to
//! them.

use crate::order::{FillView, OrderType, OrderView};
use crate::queue::{enqueue, queue_has, queue_position, LevelView};
use vstd::prelude::*;

verus! {

/// Prices strictly ascend.
pub open spec fn ascending(levels: Seq<LevelView>) -> bool {
    forall|a: int, b: int|
        0 <= a < b < levels.len() ==> (#[trigger] levels[a]).price < (#[trigger] levels[b]).price
}

/// Every order of the level is on `side`.
pub open spec fn level_on_side(level: LevelView, side: OrderType) -> bool {
    forall|j: int| 0 <= j < level.orders.len() ==> (#[trigger] level.orders[j]).order_type == side
}

/// What holds of each side of the book: no level is empty, every queue is
/// well formed and on this side, and prices strictly ascend.
pub open spec fn side_ok(levels: Seq<LevelView>, side: OrderType) -> bool {
    &&& forall|k: int|
        0 <= k < levels.len() ==> (#[trigger] levels[k]).ok() && level_on_side(levels[k], side)
    &&& ascending(levels)
}

/// Whether an order with this identifier rests on the side.
pub open spec fn side_has(levels: Seq<LevelView>, id: u64) -> bool {
    exists|k: int| 0 <= k < levels.len() && queue_has((#[trigger] levels[k]).orders, id)
}

/// The number of resting orders.
pub open spec fn side_count(levels: Seq<LevelView>) -> int
    decreases levels.len(),
{
    if levels.len() == 0 {
        0
    } else {
        side_count(levels.drop_last()) + levels.last().orders.len()
    }
}

/// The number of levels priced below `price`: where the level at `price`
/// stands, or would stand.
pub open spec fn rank(levels: Seq<LevelView>, price: int) -> int
    decreases levels.len(),
{
    if levels.len() == 0 {
        0
    } else {
        rank(levels.drop_last(), price) + if levels.last().price < price {
            1int
        } else {
            0int
        }
    }
}

/// Whether the side holds a level at exactly `price`.
pub open spec fn has_level(levels: Seq<LevelView>, price: int) -> bool {
    rank(levels, price) < levels.len() && levels[rank(levels, price)].price == price
}

/// The total size resting at exactly `price`: zero where there is no level.
pub open spec fn depth_at(levels: Seq<LevelView>, price: int) -> int {
    if has_level(levels, price) {
        levels[rank(levels, price)].size()
    } else {
        0
    }
}

/// The notional value resting at exactly `price`, in units of `10^-56`.
pub open spec fn notional_at(levels: Seq<LevelView>, price: int) -> int {
    if has_level(levels, price) {
        levels[rank(levels, price)].notional()
    } else {
        0
    }
}

/// The number of orders resting at exactly `price`.
pub open spec fn count_at(levels: Seq<LevelView>, price: int) -> int {
    if has_level(levels, price) {
        levels[rank(levels, price)].orders.len() as int
    } else {
        0
    }
}

/// The orders resting at exactly `price`, in time priority.
pub open spec fn orders_at(levels: Seq<LevelView>, price: int) -> Seq<OrderView> {
    if has_level(levels, price) {
        levels[rank(levels, price)].orders
    } else {
        Seq::empty()
    }
}

/// The side after `o` has come to rest on it: `o` joins the queue of the
/// level at its price, which is created where it is missing.
pub open spec fn rest_order(levels: Seq<LevelView>, o: OrderView) -> Seq<LevelView> {
    let k = rank(levels, o.limit_price);
    if has_level(levels, o.limit_price) {
        levels.update(k, LevelView { price: levels[k].price, orders: enqueue(levels[k].orders, o) })
    } else {
        levels.insert(k, LevelView { price: o.limit_price, orders: seq![o] })
    }
}

/// The side after the order `id` has left the level at `price`: the level
/// goes with its last order.
pub open spec fn pull_order(levels: Seq<LevelView>, price: int, id: u64) -> Seq<LevelView> {
    let k = rank(levels, price);
    if has_level(levels, price) && queue_has(levels[k].orders, id) {
        if levels[k].orders.len() == 1 {
            levels.remove(k)
        } else {
            levels.update(
                k,
                LevelView {
                    price: levels[k].price,
                    orders: levels[k].orders.remove(queue_position(levels[k].orders, id)),
                },
            )
        }
    } else {
        levels
    }
}

/// Where the best level of a side stands: the lowest price when the side is
/// taken from the low end (the asks), the highest otherwise (the bids).
pub open spec fn best_index(levels: Seq<LevelView>, from_low: bool) -> int {
    if from_low {
        0
    } else {
        levels.len() - 1
    }
}

/// Whether a level at `price` may trade with a taker whose limit is `limit`.
/// A taker without a limit trades at any price.
pub open spec fn marketable(price: int, limit: Option<int>, from_low: bool) -> bool {
    match limit {
        None => true,
        Some(l) => if from_low {
            price <= l
        } else {
            price >= l
        },
    }
}

/// The outcome of matching a taker against one side.
pub struct MatchView {
    /// The side after the match.
    pub levels: Seq<LevelView>,
    /// The trades, in the order in which they were made.
    pub fills: Seq<FillView>,
    /// What is left of the taker.
    pub remaining: int,
}

/// The trade of `quantity` between the resting order `maker` and the taker.
pub open spec fn fill_of(maker: OrderView, quantity: int, taker_id: u64) -> FillView {
    FillView { price: maker.limit_price, quantity, maker_id: maker.exchange_id, taker_id }
}

/// The side after the order at the front of its best level has been filled
/// completely.
pub open spec fn without_front(levels: Seq<LevelView>, from_low: bool) -> Seq<LevelView> {
    let b = best_index(levels, from_low);
    if levels[b].orders.len() == 1 {
        levels.remove(b)
    } else {
        levels.update(b, LevelView { price: levels[b].price, orders: levels[b].orders.remove(0) })
    }
}

/// The side after `quantity` has been taken off the order at the front of
/// its best level.
pub open spec fn with_front_reduced(
    levels: Seq<LevelView>,
    from_low: bool,
    quantity: int,
) -> Seq<LevelView> {
    let b = best_index(levels, from_low);
    let head = levels[b].orders[0];
    levels.update(
        b,
        LevelView {
            price: levels[b].price,
            orders: levels[b].orders.update(0, head.with_shares(head.shares - quantity)),
        },
    )
}

/// A measure that every step of a match makes smaller.
pub open spec fn front_queue_len(levels: Seq<LevelView>, from_low: bool) -> nat {
    if levels.len() == 0 {
        0
    } else {
        levels[best_index(levels, from_low)].orders.len()
    }
}

/// Matching in price and time priority.
///
/// While something is left of the taker and the best level of the side is
/// marketable, the order at the front of that level trades: all of it, if the
/// taker can take it, after which it leaves the book and its level with it
/// where it was the last; else the part that the taker still wants, after
/// which the taker is filled.
pub open spec fn run_match(
    levels: Seq<LevelView>,
    from_low: bool,
    quantity: int,
    limit: Option<int>,
    taker_id: u64,
) -> MatchView
    decreases levels.len(), front_queue_len(levels, from_low),
{
    let b = best_index(levels, from_low);
    if quantity <= 0 || levels.len() == 0 || levels[b].orders.len() == 0 || !marketable(
        levels[b].price,
        limit,
        from_low,
    ) {
        MatchView { levels, fills: Seq::empty(), remaining: quantity }
    } else {
        let head = levels[b].orders[0];
        if head.shares <= quantity {
            let rest = run_match(
                without_front(levels, from_low),
                from_low,
                quantity - head.shares,
                limit,
                taker_id,
            );
            MatchView {
                levels: rest.levels,
                fills: seq![fill_of(head, head.shares, taker_id)] + rest.fills,
                remaining: rest.remaining,
            }
        } else {
            MatchView {
                levels: with_front_reduced(levels, from_low, quantity),
                fills: seq![fill_of(head, quantity, taker_id)],
                remaining: 0,
            }
        }
    }
}

pub proof fn lemma_rank_bounds(levels: Seq<LevelView>, price: int)
    ensures
        0 <= rank(levels, price) <= levels.len(),
    decreases levels.len(),
{
    if levels.len() > 0 {
        lemma_rank_bounds(levels.drop_last(), price);
    }
}

/// On an ascending side the levels below the rank are cheaper than `price`
/// and the others are not.
pub proof fn lemma_rank(levels: Seq<LevelView>, price: int)
    requires
        ascending(levels),
    ensures
        0 <= rank(levels, price) <= levels.len(),
        forall|i: int| 0 <= i < rank(levels, price) ==> (#[trigger] levels[i]).price < price,
        forall|i: int|
            rank(levels, price) <= i < levels.len() ==> (#[trigger] levels[i]).price >= price,
    decreases levels.len(),
{
    if levels.len() > 0 {
        let p = levels.drop_last();
        assert forall|a: int, b: int| 0 <= a < b < p.len() implies (#[trigger] p[a]).price < (
        #[trigger] p[b]).price by {
            assert(p[a] == levels[a] && p[b] == levels[b]);
        }
        lemma_rank(p, price);
        let n = levels.len() - 1;
        assert(levels.last() == levels[n]);
        if levels[n].price < price {
            assert forall|i: int| 0 <= i < n implies (#[trigger] levels[i]).price < price by {
                assert(levels[i].price < levels[n].price);
            }
            if rank(p, price) < n {
                let i = rank(p, price);
                assert(p[i] == levels[i]);
                assert(levels[i].price < price);
            }
        } else {
            assert forall|i: int| 0 <= i < rank(p, price) implies (#[trigger] levels[i]).price
                < price by {
                assert(p[i] == levels[i]);
            }
            assert forall|i: int| rank(p, price) <= i < levels.len() implies (
            #[trigger] levels[i]).price >= price by {
                if i < n {
                    assert(p[i] == levels[i]);
                }
            }
        }
    }
}

/// A place that parts the cheaper levels from the others is the rank.
pub proof fn lemma_rank_is(levels: Seq<LevelView>, price: int, k: int)
    requires
        0 <= k <= levels.len(),
        forall|i: int| 0 <= i < k ==> (#[trigger] levels[i]).price < price,
        forall|i: int| k <= i < levels.len() ==> (#[trigger] levels[i]).price >= price,
    ensures
        rank(levels, price) == k,
    decreases levels.len(),
{
    if levels.len() > 0 {
        let p = levels.drop_last();
        let n = levels.len() - 1;
        assert(levels.last() == levels[n]);
        let kk = if k <= n {
            k
        } else {
            n
        };
        assert forall|i: int| 0 <= i < kk implies (#[trigger] p[i]).price < price by {
            assert(p[i] == levels[i]);
        }
        assert forall|i: int| kk <= i < p.len() implies (#[trigger] p[i]).price >= price by {
            assert(p[i] == levels[i]);
        }
        lemma_rank_is(p, price, kk);
    }
}

pub proof fn lemma_side_count_insert(levels: Seq<LevelView>, k: int, level: LevelView)
    requires
        0 <= k <= levels.len(),
    ensures
        side_count(levels.insert(k, level)) == side_count(levels) + level.orders.len(),
    decreases levels.len(),
{
    let r = levels.insert(k, level);
    if k == levels.len() {
        assert(r.drop_last() =~= levels);
    } else {
        assert(r.drop_last() =~= levels.drop_last().insert(k, level));
        assert(r.last() == levels.last());
        lemma_side_count_insert(levels.drop_last(), k, level);
    }
}

pub proof fn lemma_side_count_remove(levels: Seq<LevelView>, k: int)
    requires
        0 <= k < levels.len(),
    ensures
        side_count(levels.remove(k)) == side_count(levels) - levels[k].orders.len(),
    decreases levels.len(),
{
    let r = levels.remove(k);
    if k == levels.len() - 1 {
        assert(r =~= levels.drop_last());
    } else {
        assert(r.drop_last() =~= levels.drop_last().remove(k));
        assert(r.last() == levels.last());
        lemma_side_count_remove(levels.drop_last(), k);
    }
}

pub proof fn lemma_side_count_update(levels: Seq<LevelView>, k: int, level: LevelView)
    requires
        0 <= k < levels.len(),
    ensures
        side_count(levels.update(k, level)) == side_count(levels) - levels[k].orders.len()
            + level.orders.len(),
    decreases levels.len(),
{
    let r = levels.update(k, level);
    if k == levels.len() - 1 {
        assert(r.drop_last() =~= levels.drop_last());
    } else {
        assert(r.drop_last() =~= levels.drop_last().update(k, level));
        assert(r.last() == levels.last());
        lemma_side_count_update(levels.drop_last(), k, level);
    }
}

/// A side stays well formed when one of its levels is replaced by a well
/// formed level at the same price.
pub proof fn lemma_side_update(
    levels: Seq<LevelView>,
    side: OrderType,
    k: int,
    level: LevelView,
)
    requires
        side_ok(levels, side),
        0 <= k < levels.len(),
        level.price == levels[k].price,
        level.ok(),
        level_on_side(level, side),
    ensures
        side_ok(levels.update(k, level), side),
{
    let r = levels.update(k, level);
    assert forall|a: int, b: int| 0 <= a < b < r.len() implies (#[trigger] r[a]).price < (
    #[trigger] r[b]).price by {
        assert(r[a].price == levels[a].price);
        assert(r[b].price == levels[b].price);
    }
    assert forall|j: int| 0 <= j < r.len() implies (#[trigger] r[j]).ok() && level_on_side(
        r[j],
        side,
    ) by {
        if j != k {
            assert(r[j] == levels[j]);
        }
    }
}

/// A side stays well formed when a well formed level joins it where its
/// price belongs.
pub proof fn lemma_side_insert(levels: Seq<LevelView>, side: OrderType, level: LevelView)
    requires
        side_ok(levels, side),
        !has_level(levels, level.price),
        level.ok(),
        level_on_side(level, side),
    ensures
        side_ok(levels.insert(rank(levels, level.price), level), side),
{
    let k = rank(levels, level.price);
    lemma_rank(levels, level.price);
    let r = levels.insert(k, level);
    assert forall|a: int, b: int| 0 <= a < b < r.len() implies (#[trigger] r[a]).price < (
    #[trigger] r[b]).price by {
        let x = if a < k {
            a
        } else {
            a - 1
        };
        let y = if b < k {
            b
        } else {
            b - 1
        };
        if a == k {
            assert(r[b] == levels[y]);
            assert(levels[y].price >= level.price);
            if y == k {
            } else {
                assert(levels[k].price < levels[y].price);
            }
        } else if b == k {
            assert(r[a] == levels[x]);
        } else {
            assert(r[a] == levels[x]);
            assert(r[b] == levels[y]);
        }
    }
    assert forall|j: int| 0 <= j < r.len() implies (#[trigger] r[j]).ok() && level_on_side(
        r[j],
        side,
    ) by {
        if j < k {
            assert(r[j] == levels[j]);
        } else if j > k {
            assert(r[j] == levels[j - 1]);
        }
    }
}

/// A side stays well formed when one of its levels leaves it.
pub proof fn lemma_side_remove(levels: Seq<LevelView>, side: OrderType, k: int)
    requires
        side_ok(levels, side),
        0 <= k < levels.len(),
    ensures
        side_ok(levels.remove(k), side),
{
    let r = levels.remove(k);
    assert forall|a: int, b: int| 0 <= a < b < r.len() implies (#[trigger] r[a]).price < (
    #[trigger] r[b]).price by {
        let x = if a < k {
            a
        } else {
            a + 1
        };
        let y = if b < k {
            b
        } else {
            b + 1
        };
        assert(r[a] == levels[x]);
        assert(r[b] == levels[y]);
    }
    assert forall|j: int| 0 <= j < r.len() implies (#[trigger] r[j]).ok() && level_on_side(
        r[j],
        side,
    ) by {
        if j < k {
            assert(r[j] == levels[j]);
        } else {
            assert(r[j] == levels[j + 1]);
        }
    }
}

/// On an ascending side, a level stands at the rank of its own price.
pub proof fn lemma_rank_of_level(levels: Seq<LevelView>, k: int)
    requires
        ascending(levels),
        0 <= k < levels.len(),
    ensures
        rank(levels, levels[k].price) == k,
        has_level(levels, levels[k].price),
{
    assert forall|i: int| 0 <= i < k implies (#[trigger] levels[i]).price < levels[k].price by {}
    assert forall|i: int| k <= i < levels.len() implies (#[trigger] levels[i]).price
        >= levels[k].price by {
        if i > k {
            assert(levels[k].price < levels[i].price);
        }
    }
    lemma_rank_is(levels, levels[k].price, k);
}

pub proof fn lemma_side_count_nonnegative(levels: Seq<LevelView>)
    ensures
        side_count(levels) >= 0,
    decreases levels.len(),
{
    if levels.len() > 0 {
        lemma_side_count_nonnegative(levels.drop_last());
    }
}

/// One step of a match: the first trade, and then the match of what is left.
pub proof fn lemma_match_step(
    v: Seq<LevelView>,
    from_low: bool,
    quantity: int,
    limit: Option<int>,
    taker_id: u64,
)
    requires
        quantity > 0,
        v.len() > 0,
        v[best_index(v, from_low)].orders.len() > 0,
        marketable(v[best_index(v, from_low)].price, limit, from_low),
    ensures
        ({
            let head = v[best_index(v, from_low)].orders[0];
            let m = run_match(v, from_low, quantity, limit, taker_id);
            if head.shares <= quantity {
                let rest = run_match(
                    without_front(v, from_low),
                    from_low,
                    quantity - head.shares,
                    limit,
                    taker_id,
                );
                &&& m.levels == rest.levels
                &&& m.fills == seq![fill_of(head, head.shares, taker_id)] + rest.fills
                &&& m.remaining == rest.remaining
            } else {
                let rest = run_match(
                    with_front_reduced(v, from_low, quantity),
                    from_low,
                    0,
                    limit,
                    taker_id,
                );
                &&& m.levels == rest.levels
                &&& m.fills == seq![fill_of(head, quantity, taker_id)] + rest.fills
                &&& m.remaining == rest.remaining
            }
        }),
{
    let head = v[best_index(v, from_low)].orders[0];
    if head.shares > quantity {
        let rest = run_match(with_front_reduced(v, from_low, quantity), from_low, 0, limit, taker_id);
        assert(seq![fill_of(head, quantity, taker_id)] + rest.fills =~= seq![
            fill_of(head, quantity, taker_id),
        ]);
    }
}

} // verus!
