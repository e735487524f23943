//! Orders, fills and the errors of the book.

use crate::decimal::Decimal;
use vstd::prelude::*;

verus! {

/// The side of the book an order belongs to.
#[derive(Debug, Clone, Copy, PartialEq, Eq, Hash, Structural)]
pub enum OrderType {
    Bid,
    Ask,
}

/// A point in time: whole seconds since the Unix epoch and the nanoseconds
/// within the second.
#[derive(Debug, Clone, Copy, PartialEq, Eq, Hash, Structural)]
pub struct Timestamp {
    pub seconds: i64,
    pub nanoseconds: u32,
}

impl Timestamp {
    /// `self` is not later than `other`.
    pub open spec fn not_after(self, other: Timestamp) -> bool {
        self.seconds < other.seconds || (self.seconds == other.seconds && self.nanoseconds
            <= other.nanoseconds)
    }

    pub fn new(seconds: i64, nanoseconds: u32) -> (r: Timestamp)
        ensures
            r == (Timestamp { seconds, nanoseconds }),
    {
        Timestamp { seconds, nanoseconds }
    }

    /// Whether `self` is not later than `other`.
    pub fn le(&self, other: &Timestamp) -> (r: bool)
        ensures
            r == self.not_after(*other),
    {
        self.seconds < other.seconds || (self.seconds == other.seconds && self.nanoseconds
            <= other.nanoseconds)
    }
}

/// Why the book refused an operation. A refused operation leaves the book as
/// it was.
#[derive(Debug, Clone, Copy, PartialEq, Eq, Hash, Structural)]
pub enum BookError {
    /// The order's identifier is already resting in the book.
    DuplicateOrderId,
    /// No resting order has the identifier.
    OrderNotFound,
    /// The order's price is not the price of the level it was handed to.
    PriceMismatch,
    /// The order's size is zero or negative.
    InvalidSize,
    /// A size or notional value could not be held exactly: its mantissa
    /// would pass 96 bits or its scale 28 fractional digits.
    Overflow,
}

/// An order: who placed what, on which side, at which price and when.
/// During matching only `shares`, the remaining size, changes.
#[derive(Debug, PartialEq)]
pub struct Order {
    pub tick_id: String,
    pub exchange_id: u64,
    pub order_type: OrderType,
    pub shares: Decimal,
    pub limit_price: Decimal,
    pub entry_time: Timestamp,
    pub event_time: Timestamp,
}

/// An order as the contracts see it: sizes and prices are numbers, in units
/// of `10^-28`.
pub struct OrderView {
    pub tick_id: Seq<char>,
    pub exchange_id: u64,
    pub order_type: OrderType,
    pub shares: int,
    pub limit_price: int,
    pub entry_time: Timestamp,
    pub event_time: Timestamp,
}

impl OrderView {
    /// The same order with another remaining size.
    pub open spec fn with_shares(self, shares: int) -> OrderView {
        OrderView { shares, ..self }
    }
}

impl View for Order {
    type V = OrderView;

    open spec fn view(&self) -> OrderView {
        OrderView {
            tick_id: self.tick_id@,
            exchange_id: self.exchange_id,
            order_type: self.order_type,
            shares: self.shares@,
            limit_price: self.limit_price@,
            entry_time: self.entry_time,
            event_time: self.event_time,
        }
    }
}

impl Order {
    pub fn new(
        tick_id: String,
        exchange_id: u64,
        order_type: OrderType,
        shares: Decimal,
        limit_price: Decimal,
        entry_time: Timestamp,
        event_time: Timestamp,
    ) -> (r: Order)
        ensures
            r == (Order {
                tick_id,
                exchange_id,
                order_type,
                shares,
                limit_price,
                entry_time,
                event_time,
            }),
    {
        Order { tick_id, exchange_id, order_type, shares, limit_price, entry_time, event_time }
    }

    /// The same order with another remaining size.
    pub fn with_shares(&self, shares: Decimal) -> (r: Order)
        ensures
            r == (Order { shares, ..*self }),
            r@ == self@.with_shares(shares@),
    {
        Order {
            tick_id: self.tick_id.clone(),
            exchange_id: self.exchange_id,
            order_type: self.order_type,
            shares,
            limit_price: self.limit_price,
            entry_time: self.entry_time,
            event_time: self.event_time,
        }
    }
}

impl Clone for Order {
    fn clone(&self) -> (r: Order)
        ensures
            r == *self,
    {
        Order {
            tick_id: self.tick_id.clone(),
            exchange_id: self.exchange_id,
            order_type: self.order_type,
            shares: self.shares,
            limit_price: self.limit_price,
            entry_time: self.entry_time,
            event_time: self.event_time,
        }
    }
}

/// One trade: `quantity` of the resting order `maker_id` went to the incoming
/// order `taker_id` at the resting order's price.
#[derive(Debug, Clone, Copy, PartialEq)]
pub struct Fill {
    pub price: Decimal,
    pub quantity: Decimal,
    pub maker_id: u64,
    pub taker_id: u64,
}

/// A fill as the contracts see it.
pub struct FillView {
    pub price: int,
    pub quantity: int,
    pub maker_id: u64,
    pub taker_id: u64,
}

impl View for Fill {
    type V = FillView;

    open spec fn view(&self) -> FillView {
        FillView {
            price: self.price@,
            quantity: self.quantity@,
            maker_id: self.maker_id,
            taker_id: self.taker_id,
        }
    }
}

} // verus!
