//! A price-time-priority matching engine for a continuous double auction.
//!
//! An [`OrderBook`] accepts a stream of buy and sell orders (limit or
//! market) and matches each incoming order synchronously against the
//! resting liquidity on the opposite side of the book, best price first
//! and, within a price level, oldest order first.  Any unmatched
//! remainder of a limit order rests in the book; market-order remainders
//! are discarded.  Cumulative [`Stats`] record every trade.

pub mod book;
pub mod laws;
pub mod model;
pub mod orders;

pub use book::BookSide;
pub use book::Level;
pub use book::OrderBook;
pub use orders::MatchResult;
pub use orders::OrdType;
pub use orders::Order;
pub use orders::Side;
pub use orders::Stats;
