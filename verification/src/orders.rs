//! The plain data types exchanged with the matching engine: orders,
//! cumulative statistics, and per-call match results.

use vstd::prelude::*;

verus! {

/// Which side of the book an order belongs to.
#[derive(Clone, Copy, Debug, PartialEq, Eq, Structural)]
pub enum Side {
    Buy,
    Sell,
}

/// Whether an order is price-constrained (limit) or takes any price (market).
#[derive(Clone, Copy, Debug, PartialEq, Eq, Structural)]
pub enum OrdType {
    Limit,
    Market,
}

/// One order submitted to the book.
///
/// `price` is in ticks and is meaningful only for limit orders, though it
/// is always carried.  `ts` is the logical arrival time: the book assigns
/// it at submission and uses it purely as the arrival-order tiebreak.
#[derive(Clone, Copy, Debug, PartialEq, Eq, Structural)]
pub struct Order {
    pub id: u64,
    pub side: Side,
    pub typ: OrdType,
    pub price: i64,
    pub qty: i64,
    pub ts: u64,
}

/// Cumulative counters over the lifetime of a book; monotonically
/// non-decreasing, since the engine offers no cancellation.
#[derive(Clone, Copy, Debug, PartialEq, Eq, Structural)]
pub struct Stats {
    /// Resting orders fully consumed and removed.
    pub filled_orders: u64,
    /// Total quantity exchanged across all trades.
    pub filled_qty: i64,
    /// Resting-order touches: one per pop, partial touches included.
    pub trades: u64,
}

/// What one matching pass produced: the per-call deltas that `submit`
/// folds into [`Stats`], plus the incoming order's unmatched remainder.
#[derive(Clone, Copy, Debug, PartialEq, Eq, Structural)]
pub struct MatchResult {
    pub trades: u64,
    pub filled_orders: u64,
    pub filled_qty: i64,
    pub remaining: i64,
}

} // verus!
