//! Admission core of a per-symbol limit order book.
//!
//! Orders rest in one ordered sequence per symbol, sells below buys, so that
//! the best ask is the first element and the best bid the last. Orders that
//! would cross the resting book are refused, never matched.

pub mod side;
pub mod order;
pub mod events;
pub mod entry;
pub mod book;
pub mod tops;
pub mod consistency;

pub use crate::side::Side;
pub use crate::order::Order;
pub use crate::events::LogEntry;
pub use crate::entry::OrderBookEntry;
pub use crate::book::OrderBook;
