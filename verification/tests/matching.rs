use matching_engine::OrdType;
use matching_engine::Order;
use matching_engine::OrderBook;
use matching_engine::Side;

fn ord(id: u64, side: Side, typ: OrdType, price: i64, qty: i64) -> Order {
    Order { id, side, typ, price, qty, ts: 0 }
}

fn resting_total(book: &OrderBook) -> i64 {
    let mut sum: i64 = 0;
    for level in book.asks.levels.iter().chain(book.bids.levels.iter()) {
        for o in level.queue.iter() {
            sum += o.qty;
        }
    }
    sum
}

#[test]
fn new_book_is_empty() {
    let ob = OrderBook::new();
    assert_eq!(ob.asks.levels.len(), 0);
    assert_eq!(ob.bids.levels.len(), 0);
    assert_eq!(ob.stats.trades, 0);
    assert_eq!(ob.stats.filled_orders, 0);
    assert_eq!(ob.stats.filled_qty, 0);
}

#[test]
fn sell_limit_rests() {
    let mut ob = OrderBook::new();
    ob.submit(ord(1, Side::Sell, OrdType::Limit, 100, 10));
    assert_eq!(ob.asks.levels.len(), 1);
    assert_eq!(ob.asks.levels[0].price, 100);
    assert_eq!(ob.asks.levels[0].queue.len(), 1);
    assert_eq!(ob.asks.levels[0].queue[0].qty, 10);
    assert_eq!(ob.bids.levels.len(), 0);
    assert_eq!(ob.stats.trades, 0);
    assert_eq!(ob.stats.filled_orders, 0);
    assert_eq!(ob.stats.filled_qty, 0);
}

#[test]
fn buy_limit_partial_fill() {
    let mut ob = OrderBook::new();
    ob.submit(ord(1, Side::Sell, OrdType::Limit, 100, 10));
    ob.submit(ord(2, Side::Buy, OrdType::Limit, 100, 4));
    assert_eq!(ob.asks.levels.len(), 1);
    assert_eq!(ob.asks.levels[0].queue[0].qty, 6);
    assert_eq!(ob.bids.levels.len(), 0);
    assert_eq!(ob.stats.trades, 1);
    assert_eq!(ob.stats.filled_orders, 0);
    assert_eq!(ob.stats.filled_qty, 4);
}

#[test]
fn market_consumes_and_discards_remainder() {
    let mut ob = OrderBook::new();
    ob.submit(ord(1, Side::Sell, OrdType::Limit, 100, 10));
    ob.submit(ord(2, Side::Buy, OrdType::Limit, 100, 4));
    ob.submit(ord(3, Side::Buy, OrdType::Market, 0, 10));
    assert_eq!(ob.asks.levels.len(), 0);
    assert_eq!(ob.bids.levels.len(), 0);
    assert_eq!(ob.stats.trades, 2);
    assert_eq!(ob.stats.filled_orders, 1);
    assert_eq!(ob.stats.filled_qty, 10);
}

#[test]
fn fifo_oldest_fully_consumed_first() {
    let mut ob = OrderBook::new();
    ob.submit(ord(1, Side::Sell, OrdType::Limit, 100, 5));
    ob.submit(ord(2, Side::Sell, OrdType::Limit, 100, 5));
    ob.submit(ord(3, Side::Buy, OrdType::Market, 0, 7));
    assert_eq!(ob.asks.levels.len(), 1);
    assert_eq!(ob.asks.levels[0].price, 100);
    assert_eq!(ob.asks.levels[0].queue.len(), 1);
    assert_eq!(ob.asks.levels[0].queue[0].id, 2);
    assert_eq!(ob.asks.levels[0].queue[0].qty, 3);
    assert_eq!(ob.stats.trades, 2);
    assert_eq!(ob.stats.filled_orders, 1);
    assert_eq!(ob.stats.filled_qty, 7);
}

#[test]
fn fifo_three_orders_consumed_in_arrival_order() {
    let mut ob = OrderBook::new();
    ob.submit(ord(1, Side::Sell, OrdType::Limit, 100, 2));
    ob.submit(ord(2, Side::Sell, OrdType::Limit, 100, 2));
    ob.submit(ord(3, Side::Sell, OrdType::Limit, 100, 2));
    ob.submit(ord(4, Side::Buy, OrdType::Market, 0, 5));
    assert_eq!(ob.asks.levels[0].queue.len(), 1);
    assert_eq!(ob.asks.levels[0].queue[0].id, 3);
    assert_eq!(ob.asks.levels[0].queue[0].qty, 1);
    assert_eq!(ob.stats.trades, 3);
    assert_eq!(ob.stats.filled_orders, 2);
    assert_eq!(ob.stats.filled_qty, 5);
}

#[test]
fn buy_limit_no_liquidity_rests() {
    let mut ob = OrderBook::new();
    ob.submit(ord(1, Side::Buy, OrdType::Limit, 90, 5));
    assert_eq!(ob.asks.levels.len(), 0);
    assert_eq!(ob.bids.levels.len(), 1);
    assert_eq!(ob.bids.levels[0].price, 90);
    assert_eq!(ob.bids.levels[0].queue[0].qty, 5);
    assert_eq!(ob.stats.trades, 0);
    assert_eq!(ob.stats.filled_orders, 0);
    assert_eq!(ob.stats.filled_qty, 0);
}

#[test]
fn partial_fill_keeps_front_priority() {
    let mut ob = OrderBook::new();
    ob.submit(ord(1, Side::Sell, OrdType::Limit, 100, 5));
    ob.submit(ord(2, Side::Sell, OrdType::Limit, 100, 5));
    ob.submit(ord(3, Side::Buy, OrdType::Market, 0, 3));
    // The oldest order is touched first and, partially filled, stays at
    // the front of its level.
    assert_eq!(ob.asks.levels[0].queue.len(), 2);
    assert_eq!(ob.asks.levels[0].queue[0].id, 1);
    assert_eq!(ob.asks.levels[0].queue[0].qty, 2);
    assert_eq!(ob.asks.levels[0].queue[1].id, 2);
    ob.submit(ord(4, Side::Buy, OrdType::Market, 0, 4));
    assert_eq!(ob.asks.levels[0].queue.len(), 1);
    assert_eq!(ob.asks.levels[0].queue[0].id, 2);
    assert_eq!(ob.asks.levels[0].queue[0].qty, 3);
    assert_eq!(ob.stats.trades, 3);
    assert_eq!(ob.stats.filled_orders, 1);
    assert_eq!(ob.stats.filled_qty, 7);
}

#[test]
fn market_never_rests_even_unmatched() {
    let mut ob = OrderBook::new();
    ob.submit(ord(1, Side::Buy, OrdType::Market, 100, 10));
    assert_eq!(ob.asks.levels.len(), 0);
    assert_eq!(ob.bids.levels.len(), 0);
    assert_eq!(ob.stats.trades, 0);
    assert_eq!(ob.stats.filled_qty, 0);
    ob.submit(ord(2, Side::Sell, OrdType::Limit, 100, 2));
    ob.submit(ord(3, Side::Buy, OrdType::Market, 0, 5));
    // Fully consumed the resting order; the 3 leftover units vanish.
    assert_eq!(ob.asks.levels.len(), 0);
    assert_eq!(ob.bids.levels.len(), 0);
    assert_eq!(ob.stats.trades, 1);
    assert_eq!(ob.stats.filled_orders, 1);
    assert_eq!(ob.stats.filled_qty, 2);
}

#[test]
fn trades_count_per_touch_not_per_submit() {
    let mut ob = OrderBook::new();
    ob.submit(ord(1, Side::Sell, OrdType::Limit, 100, 1));
    ob.submit(ord(2, Side::Sell, OrdType::Limit, 100, 1));
    ob.submit(ord(3, Side::Buy, OrdType::Market, 0, 2));
    // One submission, two resting-order touches.
    assert_eq!(ob.stats.trades, 2);
    assert_eq!(ob.stats.filled_orders, 2);
    assert_eq!(ob.stats.filled_qty, 2);
}

#[test]
fn cheapest_ask_consumed_first() {
    let mut ob = OrderBook::new();
    ob.submit(ord(1, Side::Sell, OrdType::Limit, 101, 5));
    ob.submit(ord(2, Side::Sell, OrdType::Limit, 100, 5));
    assert_eq!(ob.asks.levels[0].price, 100);
    assert_eq!(ob.asks.levels[1].price, 101);
    ob.submit(ord(3, Side::Buy, OrdType::Limit, 101, 6));
    assert_eq!(ob.asks.levels.len(), 1);
    assert_eq!(ob.asks.levels[0].price, 101);
    assert_eq!(ob.asks.levels[0].queue[0].qty, 4);
    assert_eq!(ob.stats.trades, 2);
    assert_eq!(ob.stats.filled_orders, 1);
    assert_eq!(ob.stats.filled_qty, 6);
}

#[test]
fn highest_bid_consumed_first() {
    let mut ob = OrderBook::new();
    ob.submit(ord(1, Side::Buy, OrdType::Limit, 99, 5));
    ob.submit(ord(2, Side::Buy, OrdType::Limit, 101, 5));
    ob.submit(ord(3, Side::Buy, OrdType::Limit, 100, 5));
    assert_eq!(ob.bids.levels[0].price, 99);
    assert_eq!(ob.bids.levels[2].price, 101);
    ob.submit(ord(4, Side::Sell, OrdType::Limit, 100, 6));
    // 101 is taken fully, then 1 unit of 100; 99 does not cross.
    assert_eq!(ob.bids.levels.len(), 2);
    assert_eq!(ob.bids.levels[0].price, 99);
    assert_eq!(ob.bids.levels[0].queue[0].qty, 5);
    assert_eq!(ob.bids.levels[1].price, 100);
    assert_eq!(ob.bids.levels[1].queue[0].qty, 4);
    assert_eq!(ob.stats.trades, 2);
    assert_eq!(ob.stats.filled_orders, 1);
    assert_eq!(ob.stats.filled_qty, 6);
}

#[test]
fn limit_remainder_rests_at_own_price() {
    let mut ob = OrderBook::new();
    ob.submit(ord(1, Side::Sell, OrdType::Limit, 100, 4));
    ob.submit(ord(2, Side::Buy, OrdType::Limit, 100, 10));
    assert_eq!(ob.asks.levels.len(), 0);
    assert_eq!(ob.bids.levels.len(), 1);
    assert_eq!(ob.bids.levels[0].price, 100);
    assert_eq!(ob.bids.levels[0].queue[0].qty, 6);
    assert_eq!(ob.stats.trades, 1);
    assert_eq!(ob.stats.filled_orders, 1);
    assert_eq!(ob.stats.filled_qty, 4);
}

#[test]
fn best_bid_below_best_ask_after_every_submit() {
    let mut ob = OrderBook::new();
    let orders = vec![
        ord(1, Side::Buy, OrdType::Limit, 98, 5),
        ord(2, Side::Sell, OrdType::Limit, 102, 5),
        ord(3, Side::Buy, OrdType::Limit, 103, 5),
        ord(4, Side::Sell, OrdType::Limit, 99, 3),
        ord(5, Side::Buy, OrdType::Limit, 99, 1),
        ord(6, Side::Sell, OrdType::Limit, 97, 20),
        ord(7, Side::Buy, OrdType::Market, 0, 2),
    ];
    for o in orders {
        ob.submit(o);
        if !ob.bids.levels.is_empty() && !ob.asks.levels.is_empty() {
            let best_bid = ob.bids.levels[ob.bids.levels.len() - 1].price;
            let best_ask = ob.asks.levels[0].price;
            assert!(best_bid < best_ask);
        }
    }
}

#[test]
fn quantity_is_conserved() {
    let mut ob = OrderBook::new();
    ob.submit(ord(1, Side::Sell, OrdType::Limit, 100, 10));
    ob.submit(ord(2, Side::Buy, OrdType::Limit, 100, 4));
    ob.submit(ord(3, Side::Buy, OrdType::Market, 0, 3));
    // Inserted 10, consumed 7: resting total is 3.
    assert_eq!(resting_total(&ob), 3);
    assert_eq!(ob.stats.filled_qty, 7);
    ob.submit(ord(4, Side::Buy, OrdType::Limit, 105, 9));
    // Consumed the last 3 asks; remainder 6 rested: inserted 16, consumed 10.
    assert_eq!(resting_total(&ob), 6);
    assert_eq!(ob.stats.filled_qty, 10);
    ob.submit(ord(5, Side::Sell, OrdType::Limit, 104, 2));
    ob.submit(ord(6, Side::Sell, OrdType::Market, 0, 11));
    // Everything that rested was consumed; market leftovers vanished.
    assert_eq!(resting_total(&ob), 0);
    assert_eq!(ob.stats.trades, 5);
    assert_eq!(ob.stats.filled_orders, 2);
    assert_eq!(ob.stats.filled_qty, 16);
}

#[test]
fn sequence_stamps_are_assigned_in_order() {
    let mut ob = OrderBook::new();
    ob.submit(ord(7, Side::Sell, OrdType::Limit, 100, 1));
    ob.submit(ord(8, Side::Sell, OrdType::Limit, 100, 1));
    ob.submit(ord(9, Side::Buy, OrdType::Limit, 90, 1));
    // The caller's ts is overwritten by the book's own stamp.
    assert_eq!(ob.asks.levels[0].queue[0].ts, 1);
    assert_eq!(ob.asks.levels[0].queue[1].ts, 2);
    assert_eq!(ob.bids.levels[0].queue[0].ts, 3);
}

#[test]
fn negative_prices_match_correctly() {
    let mut ob = OrderBook::new();
    ob.submit(ord(1, Side::Sell, OrdType::Limit, -5, 2));
    ob.submit(ord(2, Side::Buy, OrdType::Limit, -6, 2));
    // -6 does not cross -5.
    assert_eq!(ob.stats.trades, 0);
    assert_eq!(ob.bids.levels[0].price, -6);
    ob.submit(ord(3, Side::Buy, OrdType::Limit, -4, 2));
    assert_eq!(ob.stats.trades, 1);
    assert_eq!(ob.stats.filled_orders, 1);
    assert_eq!(ob.stats.filled_qty, 2);
    assert_eq!(ob.asks.levels.len(), 0);
}

#[test]
fn limit_crossing_stops_at_limit_price() {
    let mut ob = OrderBook::new();
    ob.submit(ord(1, Side::Sell, OrdType::Limit, 100, 3));
    ob.submit(ord(2, Side::Sell, OrdType::Limit, 102, 3));
    ob.submit(ord(3, Side::Buy, OrdType::Limit, 101, 10));
    // Takes the 100 level, refuses 102, rests the remainder at 101.
    assert_eq!(ob.asks.levels.len(), 1);
    assert_eq!(ob.asks.levels[0].price, 102);
    assert_eq!(ob.bids.levels.len(), 1);
    assert_eq!(ob.bids.levels[0].price, 101);
    assert_eq!(ob.bids.levels[0].queue[0].qty, 7);
    assert_eq!(ob.stats.trades, 1);
    assert_eq!(ob.stats.filled_orders, 1);
    assert_eq!(ob.stats.filled_qty, 3);
}
