//! The order book itself: the two sides as sorted vectors of price
//! levels, and the verified matching pass over them.

use vstd::prelude::*;

use crate::model::best_idx;
use crate::model::crosses;
use crate::model::lemma_match_props;
use crate::model::lemma_match_step;
use crate::model::lemma_totals_nonneg;
use crate::model::lemma_totals_remove;
use crate::model::lemma_totals_update;
use crate::model::lemma_push_existing;
use crate::model::lemma_push_new;
use crate::model::lemma_push_props;
use crate::model::match_rec;
use crate::model::reduced;
use crate::model::side_wf;
use crate::model::spec_push;
use crate::model::stamped;
use crate::model::total_orders;
use crate::model::SideModel;
use crate::orders::MatchResult;
use crate::orders::OrdType;
use crate::orders::Order;
use crate::orders::Side;
use crate::orders::Stats;

verus! {

/// One price level: all resting orders at `price` on one side of the
/// book, oldest first.
pub struct Level {
    pub price: i64,
    pub queue: Vec<Order>,
}

impl View for Level {
    type V = (i64, Seq<Order>);

    open spec fn view(&self) -> (i64, Seq<Order>) {
        (self.price, self.queue@)
    }
}

/// One side of the book: its levels sorted by strictly increasing
/// price.  The ask side's best level is the first, the bid side's best
/// the last.
pub struct BookSide {
    pub levels: Vec<Level>,
}

impl View for BookSide {
    type V = SideModel;

    open spec fn view(&self) -> SideModel {
        Seq::new(self.levels@.len(), |i: int| self.levels@[i]@)
    }
}

impl BookSide {
    /// An empty side.
    pub fn new() -> (s: BookSide)
        ensures
            s@ == Seq::<(i64, Seq<Order>)>::empty(),
    {
        let s = BookSide { levels: Vec::new() };
        proof {
            assert(s@ =~= Seq::<(i64, Seq<Order>)>::empty());
        }
        s
    }
}

/// The order book: both sides, cumulative statistics, and the logical
/// clock that stamps each submission.
pub struct OrderBook {
    pub asks: BookSide,
    pub bids: BookSide,
    pub stats: Stats,
    pub next_ts: u64,
}

impl OrderBook {
    /// Well-formedness: both sides well formed, and whenever both are
    /// non-empty the best bid is strictly below the best ask.
    pub open spec fn wf(&self) -> bool {
        &&& side_wf(self.asks@)
        &&& side_wf(self.bids@)
        &&& self.asks@.len() > 0 && self.bids@.len() > 0 ==> self.bids@[self.bids@.len()
            - 1].0 < self.asks@[0].0
    }

    /// An empty book: no resting orders, zero statistics, clock at zero.
    pub fn new() -> (book: OrderBook)
        ensures
            book.wf(),
            book.asks@ == Seq::<(i64, Seq<Order>)>::empty(),
            book.bids@ == Seq::<(i64, Seq<Order>)>::empty(),
            book.stats == (Stats { filled_orders: 0, filled_qty: 0, trades: 0 }),
            book.next_ts == 0,
    {
        OrderBook {
            asks: BookSide::new(),
            bids: BookSide::new(),
            stats: Stats { filled_orders: 0, filled_qty: 0, trades: 0 },
            next_ts: 0,
        }
    }

    /// Append `o` to the back of the queue at `price` on `side`, creating
    /// the level at its sorted position if it does not exist yet.
    pub fn push_level(side: &mut BookSide, price: i64, o: Order)
        requires
            side_wf(old(side)@),
            o.qty > 0,
        ensures
            final(side)@ == spec_push(old(side)@, price, o),
            side_wf(final(side)@),
    {
        proof {
            lemma_push_props(old(side)@, price, o);
        }
        let ghost s0 = side@;
        let mut j: usize = 0;
        while j < side.levels.len() && side.levels[j].price < price
            invariant
                side@ == s0,
                side_wf(s0),
                j <= side.levels.len(),
                side.levels@.len() == s0.len(),
                forall|i: int| 0 <= i < j ==> s0[i].0 < price,
            decreases side.levels.len() - j,
        {
            assert(s0[j as int].0 == side.levels@[j as int].price);
            j = j + 1;
        }
        if j < side.levels.len() && side.levels[j].price == price {
            proof {
                assert(s0[j as int].0 == price);
                lemma_push_existing(s0, price, o, j as int);
            }
            let mut lvl = side.levels.remove(j);
            lvl.queue.push(o);
            side.levels.insert(j, lvl);
            proof {
                assert(side@ =~~= s0.update(j as int, (price, s0[j as int].1.push(o))));
            }
        } else {
            proof {
                assert(forall|i: int| j <= i < s0.len() ==> #[trigger] s0[i].0 > price) by {
                    if (j as int) < s0.len() {
                        assert(s0[j as int].0 == side.levels@[j as int].price);
                        assert(s0[j as int].0 > price);
                        assert(forall|i: int|
                            j < i < s0.len() ==> s0[j as int].0 < #[trigger] s0[i].0);
                    }
                }
                lemma_push_new(s0, price, o, j as int);
            }
            let mut q: Vec<Order> = Vec::new();
            q.push(o);
            let lvl = Level { price: price, queue: q };
            side.levels.insert(j, lvl);
            proof {
                assert(side@ =~~= s0.insert(j as int, (price, seq![o])));
            }
        }
    }

    /// One matching pass: drain resting liquidity from `book` — the side
    /// opposite the incoming order; `is_ask_book` says whether its best
    /// level is the first (asks) or the last (bids) — until the incoming
    /// order is exhausted or no crossing level remains.  Returns exactly
    /// the counters and remainder that [`match_rec`] defines.
    #[verifier::rlimit(100)]
    pub fn match_against(book: &mut BookSide, is_ask_book: bool, incoming: &Order) -> (r:
        MatchResult)
        requires
            side_wf(old(book)@),
            incoming.qty >= 0,
            total_orders(old(book)@) <= u64::MAX,
        ensures
            ({
                let m = match_rec(old(book)@, is_ask_book, *incoming, incoming.qty as int);
                &&& final(book)@ == m.0
                &&& side_wf(final(book)@)
                &&& r.trades == m.1
                &&& r.filled_orders == m.2
                &&& r.filled_qty == m.3
                &&& r.remaining == m.4
            }),
    {
        let ghost s0 = book@;
        let ghost rem0 = incoming.qty as int;
        proof {
            lemma_match_props(s0, is_ask_book, *incoming, rem0);
        }
        let ghost m0 = match_rec(s0, is_ask_book, *incoming, rem0);

        let mut rem: i64 = incoming.qty;
        let mut trades: u64 = 0;
        let mut filled_orders: u64 = 0;
        let mut filled_qty: i64 = 0;
        let mut done: bool = false;

        while !done
            invariant
                side_wf(book@),
                0 <= rem,
                0 <= filled_qty,
                rem as int == rem0 - filled_qty,
                rem0 == incoming.qty as int,
                m0 == match_rec(s0, is_ask_book, *incoming, rem0),
                total_orders(s0) <= u64::MAX,
                m0.1 <= total_orders(s0),
                0 <= m0.2 && m0.2 <= m0.1,
                filled_orders <= trades,
                ({
                    let mc = match_rec(book@, is_ask_book, *incoming, rem as int);
                    &&& m0.0 == mc.0
                    &&& m0.1 == trades + mc.1
                    &&& m0.2 == filled_orders + mc.2
                    &&& m0.3 == filled_qty + mc.3
                    &&& m0.4 == mc.4
                }),
                done ==> match_rec(book@, is_ask_book, *incoming, rem as int) == (
                    book@,
                    0int,
                    0int,
                    0int,
                    rem as int,
                ),
            decreases (if done {
                0int
            } else {
                1int
            }), total_orders(book@),
        {
            proof {
                lemma_totals_nonneg(book@);
            }
            if rem == 0 {
                done = true;
            } else if book.levels.len() == 0 {
                proof {
                    assert(book@.len() == 0);
                }
                done = true;
            } else {
                let b: usize = if is_ask_book {
                    0
                } else {
                    book.levels.len() - 1
                };
                proof {
                    assert(b as int == best_idx(book@, is_ask_book));
                }
                let level_price: i64 = book.levels[b].price;
                proof {
                    assert(level_price == book@[b as int].0);
                }
                let price_ok: bool = match incoming.typ {
                    OrdType::Market => true,
                    OrdType::Limit => match incoming.side {
                        Side::Buy => level_price <= incoming.price,
                        Side::Sell => level_price >= incoming.price,
                    },
                };
                proof {
                    assert(price_ok == crosses(*incoming, level_price));
                }
                if !price_ok {
                    done = true;
                } else {
                    let ghost scur = book@;
                    let ghost rem_old = rem as int;
                    let ghost mc = match_rec(scur, is_ask_book, *incoming, rem_old);
                    let ghost q0 = scur[b as int].1;
                    let ghost head0 = q0[0];
                    proof {
                        lemma_match_step(scur, is_ask_book, *incoming, rem_old);
                        lemma_totals_remove(scur, b as int);
                        lemma_totals_nonneg(scur.remove(b as int));
                        if head0.qty <= rem_old {
                            let q2 = q0.drop_first();
                            let s2 = if q2.len() == 0 {
                                scur.remove(b as int)
                            } else {
                                scur.update(b as int, (level_price, q2))
                            };
                            lemma_match_props(s2, is_ask_book, *incoming, rem_old - head0.qty);
                            if q2.len() > 0 {
                                lemma_totals_update(scur, b as int, (level_price, q2));
                            }
                        }
                        assert(mc.1 >= 1);
                        assert(trades + 1 <= m0.1);
                        assert(filled_orders + 1 <= trades + 1);
                    }
                    let mut lvl = book.levels.remove(b);
                    proof {
                        assert(lvl@ == scur[b as int]);
                        assert(lvl.queue@.len() > 0);
                    }
                    let mut head = lvl.queue.remove(0);
                    proof {
                        assert(head == head0);
                        assert(lvl.queue@ =~= q0.drop_first());
                    }
                    let trade_qty: i64 = if rem < head.qty {
                        rem
                    } else {
                        head.qty
                    };
                    rem = rem - trade_qty;
                    head.qty = head.qty - trade_qty;
                    trades = trades + 1;
                    filled_qty = filled_qty + trade_qty;
                    if head.qty > 0 {
                        proof {
                            assert(head0.qty > rem_old);
                            assert(head == reduced(head0, rem_old));
                        }
                        lvl.queue.insert(0, head);
                        book.levels.insert(b, lvl);
                        done = true;
                        proof {
                            assert(lvl.queue@ =~= q0.update(0, reduced(head0, rem_old)));
                            assert(book@ =~~= scur.update(
                                b as int,
                                (level_price, q0.update(0, reduced(head0, rem_old))),
                            ));
                            assert(rem == 0);
                        }
                    } else {
                        filled_orders = filled_orders + 1;
                        if lvl.queue.len() > 0 {
                            book.levels.insert(b, lvl);
                            proof {
                                assert(book@ =~~= scur.update(
                                    b as int,
                                    (level_price, q0.drop_first()),
                                ));
                            }
                        } else {
                            proof {
                                assert(q0.drop_first().len() == 0);
                                assert(book@ =~~= scur.remove(b as int));
                            }
                        }
                        proof {
                            assert(head0.qty <= rem_old);
                            assert(rem as int == rem_old - head0.qty);
                            lemma_totals_nonneg(book@);
                        }
                    }
                }
            }
        }
        MatchResult { trades: trades, filled_orders: filled_orders, filled_qty: filled_qty, remaining: rem }
    }

    /// The side an incoming order of side `side` matches against.
    pub open spec fn opposite(&self, side: Side) -> SideModel {
        if side == Side::Buy {
            self.asks@
        } else {
            self.bids@
        }
    }

    /// The side an unmatched limit remainder of side `side` rests on.
    pub open spec fn own_side(&self, side: Side) -> SideModel {
        if side == Side::Buy {
            self.bids@
        } else {
            self.asks@
        }
    }

    /// What a side an order arrived on holds after `submit`: an
    /// unmatched limit remainder rests at the back of its price's queue;
    /// a market remainder is discarded and the side is untouched.
    pub open spec fn posted_own_side(own0: SideModel, o: Order, remaining: int, ts: u64) -> SideModel {
        if remaining > 0 && o.typ == OrdType::Limit {
            spec_push(own0, o.price, stamped(o, remaining, ts))
        } else {
            own0
        }
    }

    /// Accept one order: stamp it with the next sequence number, match it
    /// against the opposite side, rest any limit remainder on its own
    /// side (market remainders are discarded), and fold the pass's
    /// counters into the statistics.
    ///
    /// Degenerate input — a non-positive quantity — is a precondition
    /// violation, as are statistics or stamp counters so close to their
    /// machine bounds that this call could overflow them; within those
    /// bounds the operation is total.  The contract pins the result
    /// exactly: the opposite side becomes what [`match_rec`] leaves, the
    /// own side gains the remainder exactly when one exists and the order
    /// is a limit order, and each statistic grows by the pass's count.
    pub fn submit(&mut self, o: Order)
        requires
            old(self).wf(),
            o.qty > 0,
            old(self).next_ts < u64::MAX,
            old(self).stats.trades + total_orders(old(self).opposite(o.side)) <= u64::MAX,
            old(self).stats.filled_orders + total_orders(old(self).opposite(o.side)) <= u64::MAX,
            old(self).stats.filled_qty + o.qty <= i64::MAX,
        ensures
            final(self).wf(),
            final(self).next_ts == old(self).next_ts + 1,
            ({
                let inc = stamped(o, o.qty as int, (old(self).next_ts + 1) as u64);
                let m = match_rec(
                    old(self).opposite(o.side),
                    o.side == Side::Buy,
                    inc,
                    o.qty as int,
                );
                &&& final(self).opposite(o.side) == m.0
                &&& final(self).own_side(o.side) == Self::posted_own_side(
                    old(self).own_side(o.side),
                    o,
                    m.4,
                    (old(self).next_ts + 1) as u64,
                )
                &&& final(self).stats.trades == old(self).stats.trades + m.1
                &&& final(self).stats.filled_orders == old(self).stats.filled_orders + m.2
                &&& final(self).stats.filled_qty == old(self).stats.filled_qty + m.3
            }),
            final(self).stats.trades >= old(self).stats.trades,
            final(self).stats.filled_orders >= old(self).stats.filled_orders,
            final(self).stats.filled_qty >= old(self).stats.filled_qty,
    {
        self.next_ts = self.next_ts + 1;
        let stamped_o = Order {
            id: o.id,
            side: o.side,
            typ: o.typ,
            price: o.price,
            qty: o.qty,
            ts: self.next_ts,
        };
        proof {
            assert(stamped_o == stamped(o, o.qty as int, (old(self).next_ts + 1) as u64));
        }
        let result: MatchResult = match o.side {
            Side::Buy => {
                proof {
                    lemma_match_props(self.asks@, true, stamped_o, o.qty as int);
                }
                let res = Self::match_against(&mut self.asks, true, &stamped_o);
                if res.remaining > 0 && o.typ == OrdType::Limit {
                    let resting_o = Order {
                        id: o.id,
                        side: o.side,
                        typ: o.typ,
                        price: o.price,
                        qty: res.remaining,
                        ts: stamped_o.ts,
                    };
                    proof {
                        lemma_push_props(self.bids@, o.price, resting_o);
                    }
                    Self::push_level(&mut self.bids, o.price, resting_o);
                }
                res
            },
            Side::Sell => {
                proof {
                    lemma_match_props(self.bids@, false, stamped_o, o.qty as int);
                }
                let res = Self::match_against(&mut self.bids, false, &stamped_o);
                if res.remaining > 0 && o.typ == OrdType::Limit {
                    let resting_o = Order {
                        id: o.id,
                        side: o.side,
                        typ: o.typ,
                        price: o.price,
                        qty: res.remaining,
                        ts: stamped_o.ts,
                    };
                    proof {
                        lemma_push_props(self.asks@, o.price, resting_o);
                    }
                    Self::push_level(&mut self.asks, o.price, resting_o);
                }
                res
            },
        };
        self.stats.trades = self.stats.trades + result.trades;
        self.stats.filled_orders = self.stats.filled_orders + result.filled_orders;
        self.stats.filled_qty = self.stats.filled_qty + result.filled_qty;
    }
}

} // verus!
