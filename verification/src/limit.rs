//! A price level: the resting orders at one price, with their running totals.
//!
//! The totals are kept exact. The level's size is written with as many
//! fractional digits as the finest of its orders, and its notional value
//! with as many as the size and the price together, so that an order can
//! always be taken out of the totals again without rounding.

use crate::decimal::{lemma_pow10_add, lemma_pow10_positive, pow10, unit, Decimal, MANTISSA_LIMIT, MAX_SCALE};
use crate::order::{BookError, Order, OrderView};
use crate::queue::{
    arrival_position, enqueue, lemma_arrival_position_is, lemma_enqueue_ok, lemma_queue_position,
    lemma_queue_size_bounds, lemma_queue_size_insert, lemma_queue_size_remove,
    lemma_queue_size_update, lemma_reduce_ok, lemma_remove_ok, queue_has, queue_ok,
    queue_position, queue_priced, queue_size, LevelView,
};
use vstd::prelude::*;

verus! {

/// All resting orders at one price.
///
/// `orders` is the queue in time priority. `size` is the sum of the remaining
/// sizes, `total_volume` the notional value (size times price) and
/// `order_count` the number of orders.
#[derive(Debug)]
pub struct Limit {
    pub limit_price: Decimal,
    pub orders: Vec<Order>,
    pub size: Decimal,
    pub total_volume: Decimal,
    pub order_count: u64,
}

/// The queue that a vector of orders stands for.
pub open spec fn views(orders: Seq<Order>) -> Seq<OrderView> {
    orders.map_values(|o: Order| o@)
}

/// The order `o` with the remaining size `shares`.
pub open spec fn with_shares(o: Order, shares: Decimal) -> Order {
    Order { shares, ..o }
}

/// The totals of a queue at `price` are right and are written so that any
/// order can leave them exactly: the size is the sum of the sizes, written
/// with no fewer digits than any of them; the notional value is the size
/// times the price, written with the digits of both.
pub open spec fn totals_ok(q: Seq<Order>, size: Decimal, volume: Decimal, price: Decimal) -> bool {
    &&& size.inv()
    &&& volume.inv()
    &&& price.inv()
    &&& forall|j: int|
        0 <= j < q.len() ==> (#[trigger] q[j]).shares.inv() && q[j].shares.spec_scale()
            <= size.spec_scale()
    &&& size@ == queue_size(views(q))
    &&& volume@ * unit() == size@ * price@
    &&& if q.len() == 0 {
        size.spec_scale() == 0 && volume.spec_scale() == 0
    } else if price@ == 0 {
        volume.spec_scale() == 0
    } else {
        volume.spec_scale() == size.spec_scale() + price.spec_scale()
    }
}

/// A product by a part is no larger than the product by the whole.
pub proof fn lemma_part_product(part: int, whole: int, price: int)
    requires
        0 <= part <= whole,
    ensures
        price >= 0 ==> 0 <= part * price <= whole * price,
        price < 0 ==> whole * price <= part * price <= 0,
{
    if price >= 0 {
        assert(0 <= part * price <= whole * price) by (nonlinear_arith)
            requires
                0 <= part <= whole,
                price >= 0,
        ;
    } else {
        assert(whole * price <= part * price <= 0) by (nonlinear_arith)
            requires
                0 <= part <= whole,
                price < 0,
        ;
    }
}

/// A notional value whose product with the unit is the product by a part is
/// no larger than the one of the whole.
proof fn lemma_part_volume(v: int, volume: int, part: int, whole: int, price: int)
    requires
        0 <= part <= whole,
        v * unit() == part * price,
        volume * unit() == whole * price,
    ensures
        volume >= 0 ==> 0 <= v <= volume,
        volume < 0 ==> volume <= v <= 0,
        price != 0 && whole > 0 ==> volume != 0,
        price != 0 && part > 0 ==> v != 0,
{
    lemma_part_product(part, whole, price);
    let u = unit();
    assert(u > 0);
    assert(volume >= 0 ==> 0 <= v <= volume) by (nonlinear_arith)
        requires
            u > 0,
            v * u == part * price,
            volume * u == whole * price,
            (price >= 0 ==> 0 <= part * price <= whole * price),
            (price < 0 ==> whole * price <= part * price <= 0),
    ;
    assert(volume < 0 ==> volume <= v <= 0) by (nonlinear_arith)
        requires
            u > 0,
            v * u == part * price,
            volume * u == whole * price,
            (price >= 0 ==> 0 <= part * price <= whole * price),
            (price < 0 ==> whole * price <= part * price <= 0),
    ;
    if price != 0 && whole > 0 {
        assert(whole * price != 0) by (nonlinear_arith)
            requires
                price != 0,
                whole > 0,
        ;
        assert(volume != 0) by (nonlinear_arith)
            requires
                volume * u == whole * price,
                whole * price != 0,
        ;
    }
    if price != 0 && part > 0 {
        assert(part * price != 0) by (nonlinear_arith)
            requires
                price != 0,
                part > 0,
        ;
        assert(v != 0) by (nonlinear_arith)
            requires
                v * u == part * price,
                part * price != 0,
        ;
    }
}

/// A part of the queue's size, written with no more fractional digits than
/// the size, can be taken out of the totals exactly.
proof fn lemma_part_leaves(size: Decimal, volume: Decimal, price: Decimal, part: Decimal)
    requires
        size.inv(),
        volume.inv(),
        price.inv(),
        part.inv(),
        0 < part@ <= size@,
        part.spec_scale() <= size.spec_scale(),
        volume@ * unit() == size@ * price@,
        price@ != 0 ==> volume.spec_scale() == size.spec_scale() + price.spec_scale(),
    ensures
        size.can_sub(part),
        part.can_mul(price),
        volume.can_sub(part.product_of(price)),
{
    size.lemma_bounded();
    volume.lemma_bounded();
    price.lemma_bounded();
    part.lemma_bounded();
    let sigma = size.spec_scale();
    size.lemma_can_sub(part, sigma);
    if price@ == 0 {
        part.lemma_with_zero(price);
        part.lemma_product_of(price);
        Decimal::lemma_zero_value();
        volume.lemma_with_zero(part.product_of(price));
    } else {
        let tau = volume.spec_scale();
        let scp = price.spec_scale();
        let lim = MANTISSA_LIMIT as int;
        let k = (MAX_SCALE - tau) as nat;
        lemma_pow10_add(k, 28);
        crate::decimal::lemma_pow10_values();
        lemma_pow10_positive(k);
        lemma_part_product(part@, size@, price@);
        // |part * price| <= |size * price| = |volume| * unit < 2^96 * 10^(56 - tau)
        assert(-(lim * pow10(k)) * unit() < part@ * price@ < (lim * pow10(k)) * unit())
            by (nonlinear_arith)
            requires
                -(lim * pow10(k)) < volume@ < lim * pow10(k),
                volume@ * unit() == size@ * price@,
                (price@ >= 0 ==> 0 <= part@ * price@ <= size@ * price@),
                (price@ < 0 ==> size@ * price@ <= part@ * price@ <= 0),
                unit() > 0,
        ;
        assert((lim * pow10(k)) * unit() == lim * pow10((2 * MAX_SCALE - sigma - scp) as nat))
            by (nonlinear_arith)
            requires
                pow10((2 * MAX_SCALE - sigma - scp) as nat) == pow10(k) * unit(),
        ;
        part.lemma_can_mul(price, sigma, scp);
        part.lemma_product_of(price);
        let v = part.product_of(price);
        lemma_part_volume(v@, volume@, part@, size@, price@);
        part.lemma_sign();
        price.lemma_sign();
        volume.lemma_can_sub(v, tau);
    }
}

/// The totals stay right when an order joins the queue, where the sums are
/// exact.
pub proof fn lemma_totals_add(
    q: Seq<Order>,
    size: Decimal,
    volume: Decimal,
    price: Decimal,
    a: int,
    o: Order,
)
    requires
        totals_ok(q, size, volume, price),
        queue_priced(views(q), price@),
        o.shares.inv(),
        o.shares@ > 0,
        0 <= a <= q.len(),
        size.can_add(o.shares),
        o.shares.can_mul(price),
        volume.can_add(o.shares.product_of(price)),
    ensures
        totals_ok(
            q.insert(a, o),
            size.sum_of(o.shares),
            volume.sum_of(o.shares.product_of(price)),
            price,
        ),
        size.sum_of(o.shares)@ == size@ + o.shares@,
        volume.sum_of(o.shares.product_of(price))@ * unit() == volume@ * unit() + o.shares@
            * price@,
{
    let s = o.shares;
    let v = s.product_of(price);
    size.lemma_sum_of(s);
    s.lemma_product_of(price);
    volume.lemma_sum_of(v);
    Decimal::lemma_zero_value();
    lemma_queue_size_bounds(views(q), price@);
    let r = q.insert(a, o);
    assert(views(r) =~= views(q).insert(a, o@));
    lemma_queue_size_insert(views(q), a, o@);
    let new_size = size.sum_of(s);
    let new_volume = volume.sum_of(v);
    assert(new_volume@ * unit() == new_size@ * price@ && new_volume@ * unit() == volume@ * unit()
        + s@ * price@) by (nonlinear_arith)
        requires
            new_volume@ == volume@ + v@,
            new_size@ == size@ + s@,
            volume@ * unit() == size@ * price@,
            v@ * unit() == s@ * price@,
    ;
    lemma_part_volume(v@, new_volume@, s@, new_size@, price@);
    lemma_part_volume(volume@, new_volume@, size@, new_size@, price@);
    assert forall|j: int| 0 <= j < r.len() implies (#[trigger] r[j]).shares.inv()
        && r[j].shares.spec_scale() <= new_size.spec_scale() by {
        if j < a {
            assert(r[j] == q[j]);
        } else if j > a {
            assert(r[j] == q[j - 1]);
        }
    }
}

/// The totals stay right when an order leaves the queue, which it can
/// always do exactly.
pub proof fn lemma_totals_remove(
    q: Seq<Order>,
    size: Decimal,
    volume: Decimal,
    price: Decimal,
    k: int,
)
    requires
        totals_ok(q, size, volume, price),
        queue_priced(views(q), price@),
        0 <= k < q.len(),
    ensures
        size.can_sub(q[k].shares),
        q[k].shares.can_mul(price),
        volume.can_sub(q[k].shares.product_of(price)),
        size.difference_of(q[k].shares)@ == size@ - q[k].shares@,
        volume.difference_of(q[k].shares.product_of(price))@ * unit() == volume@ * unit()
            - q[k].shares@ * price@,
        q.len() == 1 ==> size@ == q[k].shares@,
        q.len() > 1 ==> totals_ok(
            q.remove(k),
            size.difference_of(q[k].shares),
            volume.difference_of(q[k].shares.product_of(price)),
            price,
        ),
{
    let s = q[k].shares;
    assert(views(q)[k] == q[k]@);
    lemma_queue_size_bounds(views(q), price@);
    lemma_part_leaves(size, volume, price, s);
    let v = s.product_of(price);
    size.lemma_difference_of(s);
    s.lemma_product_of(price);
    volume.lemma_difference_of(v);
    Decimal::lemma_zero_value();
    let r = q.remove(k);
    assert(views(r) =~= views(q).remove(k));
    lemma_queue_size_remove(views(q), k);
    let new_size = size.difference_of(s);
    let new_volume = volume.difference_of(v);
    assert(new_volume@ * unit() == new_size@ * price@ && new_volume@ * unit() == volume@ * unit()
        - s@ * price@) by (nonlinear_arith)
        requires
            new_volume@ == volume@ - v@,
            new_size@ == size@ - s@,
            volume@ * unit() == size@ * price@,
            v@ * unit() == s@ * price@,
    ;
    if q.len() == 1 {
        assert(r =~= Seq::empty());
    } else {
        assert(queue_priced(views(r), price@)) by {
            assert forall|j: int| 0 <= j < views(r).len() implies (
            #[trigger] views(r)[j]).limit_price == price@ && views(r)[j].shares > 0 by {
                if j < k {
                    assert(views(r)[j] == views(q)[j]);
                } else {
                    assert(views(r)[j] == views(q)[j + 1]);
                }
            }
        }
        lemma_queue_size_bounds(views(r), price@);
        lemma_part_volume(v@, volume@, s@, size@, price@);
        assert forall|j: int| 0 <= j < r.len() implies (#[trigger] r[j]).shares.inv()
            && r[j].shares.spec_scale() <= new_size.spec_scale() by {
            if j < k {
                assert(r[j] == q[j]);
            } else {
                assert(r[j] == q[j + 1]);
            }
        }
    }
}

/// The totals stay right when `quantity` is taken off the order at the front
/// of the queue, where the three differences and the product are exact.
pub proof fn lemma_totals_reduce(
    q: Seq<Order>,
    size: Decimal,
    volume: Decimal,
    price: Decimal,
    quantity: Decimal,
)
    requires
        totals_ok(q, size, volume, price),
        queue_priced(views(q), price@),
        q.len() > 0,
        quantity.inv(),
        0 < quantity@ < q[0].shares@,
        size.can_sub(quantity),
        quantity.can_mul(price),
        volume.can_sub(quantity.product_of(price)),
    ensures
        q[0].shares.can_sub(quantity),
        q[0].shares.difference_of(quantity)@ == q[0].shares@ - quantity@,
        size.difference_of(quantity)@ == size@ - quantity@,
        volume.difference_of(quantity.product_of(price))@ * unit() == volume@ * unit()
            - quantity@ * price@,
        totals_ok(
            q.update(0, with_shares(q[0], q[0].shares.difference_of(quantity))),
            size.difference_of(quantity),
            volume.difference_of(quantity.product_of(price)),
            price,
        ),
{
    let s = q[0].shares;
    assert(views(q)[0] == q[0]@);
    lemma_queue_size_bounds(views(q), price@);
    let v = quantity.product_of(price);
    size.lemma_difference_of(quantity);
    quantity.lemma_product_of(price);
    volume.lemma_difference_of(v);
    Decimal::lemma_zero_value();
    quantity.lemma_bounded();
    s.lemma_bounded();
    size.lemma_bounded();
    let new_size = size.difference_of(quantity);
    let new_volume = volume.difference_of(v);
    // the front order's difference is no larger than the level's
    let top = crate::decimal::larger(size.spec_scale(), quantity.spec_scale());
    s.lemma_can_sub(quantity, top);
    s.lemma_difference_of(quantity);
    let left = s.difference_of(quantity);
    let o = with_shares(q[0], left);
    let r = q.update(0, o);
    assert(views(r) =~= views(q).update(0, o@));
    lemma_queue_size_update(views(q), 0, o@);
    assert(new_volume@ * unit() == new_size@ * price@ && new_volume@ * unit() == volume@ * unit()
        - quantity@ * price@) by (nonlinear_arith)
        requires
            new_volume@ == volume@ - v@,
            new_size@ == size@ - quantity@,
            volume@ * unit() == size@ * price@,
            v@ * unit() == quantity@ * price@,
    ;
    lemma_part_volume(v@, volume@, quantity@, size@, price@);
    assert forall|j: int| 0 <= j < r.len() implies (#[trigger] r[j]).shares.inv()
        && r[j].shares.spec_scale() <= new_size.spec_scale() by {
        if j > 0 {
            assert(r[j] == q[j]);
        }
    }
}

/// A level as it is written: its price, its queue and its totals, digit
/// for digit.
pub struct Written {
    pub price: Decimal,
    pub orders: Seq<Order>,
    pub size: Decimal,
    pub volume: Decimal,
}

impl View for Limit {
    type V = LevelView;

    open spec fn view(&self) -> LevelView {
        LevelView { price: self.limit_price@, orders: views(self.orders@) }
    }
}

impl Limit {
    /// The level as it is written.
    pub open spec fn written(&self) -> Written {
        Written {
            price: self.limit_price,
            orders: self.orders@,
            size: self.size,
            volume: self.total_volume,
        }
    }

    /// The queue is well formed and the totals are those of the queue.
    pub open spec fn wf(&self) -> bool {
        &&& self.order_count == self.orders@.len()
        &&& queue_ok(self@.orders, self.limit_price@)
        &&& totals_ok(self.orders@, self.size, self.total_volume, self.limit_price)
    }

    /// Why the level refuses `order`, if it does. Numbers are refused only
    /// where a total could not be held exactly.
    pub open spec fn add_rejection(&self, order: Order) -> Option<BookError> {
        if order.limit_price@ != self.limit_price@ {
            Some(BookError::PriceMismatch)
        } else if queue_has(self@.orders, order.exchange_id) {
            Some(BookError::DuplicateOrderId)
        } else if order.shares@ <= 0 {
            Some(BookError::InvalidSize)
        } else if !self.size.can_add(order.shares) || !order.shares.can_mul(self.limit_price)
            || !self.total_volume.can_add(order.shares.product_of(self.limit_price)) {
            Some(BookError::Overflow)
        } else {
            None
        }
    }

    /// An empty level at `limit_price`.
    pub fn new(limit_price: Decimal) -> (r: Limit)
        ensures
            r.wf(),
            r.limit_price == limit_price,
            r.orders@.len() == 0,
            r.size == Decimal::zero_value(),
            r.total_volume == Decimal::zero_value(),
            r.size@ == 0,
            r.total_volume@ == 0,
            r.order_count == 0,
    {
        proof {
            use_type_invariant(&limit_price);
        }
        let r = Limit {
            limit_price,
            orders: Vec::new(),
            size: Decimal::zero(),
            total_volume: Decimal::zero(),
            order_count: 0,
        };
        proof {
            assert(r@.orders =~= Seq::empty());
            assert(0 * unit() == 0 * limit_price@) by (nonlinear_arith);
        }
        r
    }

    /// Whether the level holds no size, which is so exactly when it holds no
    /// order.
    pub fn is_empty(&self) -> (r: bool)
        requires
            self.wf(),
        ensures
            r == (self.size@ == 0),
            r == (self.order_count == 0),
    {
        proof {
            lemma_queue_size_bounds(self@.orders, self.limit_price@);
            assert(self@.orders.len() == self.orders@.len());
        }
        self.size.is_zero()
    }

    /// Where in the queue the order with this identifier stands.
    pub fn position(&self, order_id: u64) -> (r: Option<usize>)
        requires
            self.wf(),
        ensures
            r is Some <==> queue_has(self@.orders, order_id),
            r matches Some(k) ==> k < self.orders@.len() && k == queue_position(
                self@.orders,
                order_id,
            ) && self.orders@[k as int].exchange_id == order_id,
    {
        let mut i: usize = 0;
        while i < self.orders.len()
            invariant
                self.wf(),
                i <= self.orders@.len(),
                forall|j: int| 0 <= j < i ==> (#[trigger] self@.orders[j]).exchange_id != order_id,
            decreases self.orders@.len() - i,
        {
            if self.orders[i].exchange_id == order_id {
                proof {
                    assert(self@.orders[i as int].exchange_id == order_id);
                    lemma_queue_position(self@.orders, i as int);
                }
                return Some(i);
            }
            i = i + 1;
        }
        None
    }

    /// Adds a resting order to the level.
    ///
    /// The order joins the queue behind every order that entered no later
    /// than it, and the totals grow by its size and by its size times the
    /// level's price. An order is refused for its numbers only where one of
    /// these sums, or the product, could not be held exactly. A refused
    /// order changes nothing.
    pub fn add_order(&mut self, order: Order) -> (r: Result<(), BookError>)
        requires
            old(self).wf(),
        ensures
            final(self).wf(),
            final(self).limit_price == old(self).limit_price,
            match r {
                Ok(_) => {
                    &&& old(self).add_rejection(order) is None
                    &&& final(self).orders@ == old(self).orders@.insert(
                        arrival_position(old(self)@.orders, order.entry_time),
                        order,
                    )
                    &&& final(self)@.orders == enqueue(old(self)@.orders, order@)
                    &&& final(self).size == old(self).size.sum_of(order.shares)
                    &&& final(self).total_volume == old(self).total_volume.sum_of(
                        order.shares.product_of(old(self).limit_price),
                    )
                    &&& final(self).size@ == old(self).size@ + order.shares@
                    &&& final(self).total_volume@ * unit() == old(self).total_volume@ * unit()
                        + order.shares@ * order.limit_price@
                    &&& final(self).order_count == old(self).order_count + 1
                },
                Err(e) => old(self).add_rejection(order) == Some(e) && *final(self) == *old(self),
            },
    {
        if !(order.limit_price == self.limit_price) {
            return Err(BookError::PriceMismatch);
        }
        if self.position(order.exchange_id).is_some() {
            return Err(BookError::DuplicateOrderId);
        }
        if !order.shares.is_positive() {
            return Err(BookError::InvalidSize);
        }
        let new_size = match self.size.checked_add(&order.shares) {
            Some(v) => v,
            None => {
                return Err(BookError::Overflow);
            },
        };
        let value = match order.shares.checked_mul(&self.limit_price) {
            Some(v) => v,
            None => {
                return Err(BookError::Overflow);
            },
        };
        let new_volume = match self.total_volume.checked_add(&value) {
            Some(v) => v,
            None => {
                return Err(BookError::Overflow);
            },
        };
        let mut k: usize = self.orders.len();
        while k > 0
            invariant
                k <= self.orders@.len(),
                forall|j: int|
                    k <= j < self.orders@.len() ==> !(#[trigger] self@.orders[j]).entry_time.not_after(
                        order.entry_time,
                    ),
            ensures
                k <= self.orders@.len(),
                forall|j: int|
                    k <= j < self.orders@.len() ==> !(#[trigger] self@.orders[j]).entry_time.not_after(
                        order.entry_time,
                    ),
                k > 0 ==> self@.orders[k - 1].entry_time.not_after(order.entry_time),
            decreases k,
        {
            if self.orders[k - 1].entry_time.le(&order.entry_time) {
                break ;
            }
            k = k - 1;
        }
        let shares: Decimal = order.shares;
        proof {
            use_type_invariant(&shares);
            lemma_arrival_position_is(self@.orders, order.entry_time, k as int);
            lemma_enqueue_ok(self@.orders, self.limit_price@, order@);
            assert(views(self.orders@.insert(k as int, order)) =~= self@.orders.insert(
                k as int,
                order@,
            ));
            lemma_totals_add(
                self.orders@,
                self.size,
                self.total_volume,
                self.limit_price,
                k as int,
                order,
            );
        }
        self.orders.insert(k, order);
        self.size = new_size;
        self.total_volume = new_volume;
        self.order_count = self.orders.len() as u64;
        Ok(())
    }

    /// Takes the order with this identifier out of the level.
    ///
    /// The totals shrink by the order's remaining size and by that size times
    /// the price; once the last order has left they are plain zero. Where no
    /// order has the identifier nothing changes.
    pub fn remove_order(&mut self, order_id: u64) -> (r: Result<Order, BookError>)
        requires
            old(self).wf(),
        ensures
            final(self).wf(),
            final(self).limit_price == old(self).limit_price,
            match r {
                Ok(o) => {
                    let k = queue_position(old(self)@.orders, order_id);
                    &&& queue_has(old(self)@.orders, order_id)
                    &&& 0 <= k < old(self).orders@.len()
                    &&& o == old(self).orders@[k]
                    &&& o.exchange_id == order_id
                    &&& final(self).orders@ == old(self).orders@.remove(k)
                    &&& final(self)@.orders == old(self)@.orders.remove(k)
                    &&& final(self).size@ == old(self).size@ - o.shares@
                    &&& final(self).total_volume@ * unit() == old(self).total_volume@ * unit()
                        - o.shares@ * o.limit_price@
                    &&& final(self).order_count == old(self).order_count - 1
                    &&& final(self).order_count > 0 ==> final(self).size == old(
                        self,
                    ).size.difference_of(o.shares) && final(self).total_volume == old(
                        self,
                    ).total_volume.difference_of(o.shares.product_of(old(self).limit_price))
                },
                Err(e) => e == BookError::OrderNotFound && !queue_has(old(self)@.orders, order_id)
                    && *final(self) == *old(self),
            },
    {
        let k: usize = match self.position(order_id) {
            Some(k) => k,
            None => {
                return Err(BookError::OrderNotFound);
            },
        };
        proof {
            lemma_remove_ok(self@.orders, self.limit_price@, k as int);
            assert(self@.orders[k as int] == self.orders@[k as int]@);
            lemma_totals_remove(
                self.orders@,
                self.size,
                self.total_volume,
                self.limit_price,
                k as int,
            );
            assert(views(self.orders@.remove(k as int)) =~= self@.orders.remove(k as int));
        }
        let new_size = self.size.checked_sub(&self.orders[k].shares).unwrap();
        let value = self.orders[k].shares.checked_mul(&self.limit_price).unwrap();
        let new_volume = self.total_volume.checked_sub(&value).unwrap();
        let order = self.orders.remove(k);
        self.order_count = self.orders.len() as u64;
        if self.orders.len() == 0 {
            proof {
                assert(self@.orders =~= Seq::empty());
                assert(0 * unit() == 0 * self.limit_price@) by (nonlinear_arith);
                let was = old(self).total_volume@;
                let all = old(self).size@;
                let p = self.limit_price@;
                let gone = order.shares@;
                assert(new_volume@ * unit() == 0) by (nonlinear_arith)
                    requires
                        new_volume@ * unit() == was * unit() - gone * p,
                        was * unit() == all * p,
                        all == gone,
                ;
            }
            self.size = Decimal::zero();
            self.total_volume = Decimal::zero();
        } else {
            self.size = new_size;
            self.total_volume = new_volume;
        }
        Ok(order)
    }

    /// Whether `quantity` can be taken off the order at the front of the
    /// queue with exact totals.
    pub open spec fn can_reduce(&self, quantity: Decimal) -> bool {
        &&& self.size.can_sub(quantity)
        &&& quantity.can_mul(self.limit_price)
        &&& self.total_volume.can_sub(quantity.product_of(self.limit_price))
    }

    /// Takes `quantity` off the order at the front of the queue, which stays
    /// in the queue with what is left, and off the totals. Returns the front
    /// order as it now is.
    pub(crate) fn reduce_front(&mut self, quantity: &Decimal) -> (r: Order)
        requires
            old(self).wf(),
            old(self).order_count > 0,
            0 < quantity@ < old(self).orders@[0].shares@,
            old(self).can_reduce(*quantity),
        ensures
            final(self).wf(),
            final(self).limit_price == old(self).limit_price,
            r == with_shares(
                old(self).orders@[0],
                old(self).orders@[0].shares.difference_of(*quantity),
            ),
            r.shares@ == old(self).orders@[0].shares@ - quantity@,
            final(self).orders@ == old(self).orders@.update(0, r),
            final(self)@.orders == old(self)@.orders.update(
                0,
                old(self)@.orders[0].with_shares(old(self)@.orders[0].shares - quantity@),
            ),
            final(self).size == old(self).size.difference_of(*quantity),
            final(self).total_volume == old(self).total_volume.difference_of(
                quantity.product_of(old(self).limit_price),
            ),
            final(self).size@ == old(self).size@ - quantity@,
            final(self).order_count == old(self).order_count,
    {
        proof {
            use_type_invariant(quantity);
            assert(self@.orders[0] == self.orders@[0]@);
            lemma_reduce_ok(
                self@.orders,
                self.limit_price@,
                0,
                self.orders@[0].shares@ - quantity@,
            );
            lemma_totals_reduce(
                self.orders@,
                self.size,
                self.total_volume,
                self.limit_price,
                *quantity,
            );
        }
        let left = self.orders[0].shares.checked_sub(quantity).unwrap();
        let new_size = self.size.checked_sub(quantity).unwrap();
        let value = quantity.checked_mul(&self.limit_price).unwrap();
        let new_volume = self.total_volume.checked_sub(&value).unwrap();
        let reduced = self.orders[0].with_shares(left);
        let copy = reduced.clone();
        self.orders.set(0, reduced);
        self.size = new_size;
        self.total_volume = new_volume;
        proof {
            assert(views(self.orders@) =~= old(self)@.orders.update(
                0,
                old(self)@.orders[0].with_shares(old(self)@.orders[0].shares - quantity@),
            ));
        }
        copy
    }
}

} // verus!
