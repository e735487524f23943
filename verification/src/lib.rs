//! A single-instrument limit order book with exact decimal sizes and prices.
//!
//! Orders rest in price levels, one per price and side, in time priority;
//! incoming orders are matched against the other side in price and time
//! priority. Every function states in its contract what it returns and how
//! it changes the book, and [`laws`] states what holds of the book whatever
//! is done to it.
//!
//! Every number the book holds is exact. A decimal has a mantissa of at most
//! 96 bits and at most 28 fractional digits; an order is refused for its
//! numbers only where a sum, difference or product that it calls for could
//! not be held in such a decimal.

pub mod book;
pub mod decimal;
pub mod laws;
pub mod levels;
pub mod limit;
pub mod matching;
pub mod order;
pub mod queries;
pub mod queue;
pub mod side;

pub use book::LimitOrderBook;
pub use decimal::Decimal;
pub use limit::Limit;
pub use matching::Execution;
pub use order::{BookError, Fill, Order, OrderType, Timestamp};
