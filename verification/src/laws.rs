//! The laws of the matching engine, stated over the model and proved
//! once for every input.  Together with `submit`'s own contract — which
//! ensures well-formedness, and with it that the best bid stays strictly
//! below the best ask whenever both sides are non-empty — these pin down
//! the engine's conservation, priority, and counting behaviour.

use vstd::prelude::*;

use crate::book::OrderBook;
use crate::model::best_idx;
use crate::model::best_queue_len;
use crate::model::crosses;
use crate::model::lemma_match_props;
use crate::model::lemma_match_step;
use crate::model::lemma_push_props;
use crate::model::match_filled_orders;
use crate::model::match_filled_qty;
use crate::model::match_remaining;
use crate::model::match_rec;
use crate::model::match_side;
use crate::model::match_trades;
use crate::model::reduced;
use crate::model::side_wf;
use crate::model::spec_push;
use crate::model::stamped;
use crate::model::total_orders;
use crate::model::total_qty;
use crate::model::SideModel;
use crate::orders::OrdType;
use crate::orders::Order;

verus! {

/// Quantity conservation, consuming half: a matching pass splits the
/// incoming quantity exactly into traded and remaining units, and the
/// resting quantity it removes from the book is exactly the traded
/// quantity.
pub proof fn law_quantity_conservation(s: SideModel, is_ask: bool, o: Order, rem: int)
    requires
        side_wf(s),
        rem >= 0,
    ensures
        match_filled_qty(s, is_ask, o, rem) + match_remaining(s, is_ask, o, rem) == rem,
        total_qty(match_side(s, is_ask, o, rem)) == total_qty(s) - match_filled_qty(
            s,
            is_ask,
            o,
            rem,
        ),
        match_filled_qty(s, is_ask, o, rem) >= 0,
        match_remaining(s, is_ask, o, rem) >= 0,
{
    lemma_match_props(s, is_ask, o, rem);
}

/// Quantity conservation, resting half: inserting a remainder adds
/// exactly its quantity to the book, so the book's resting total is at
/// all times the sum of inserted remainders minus the quantities trades
/// later consumed.
pub proof fn law_rested_quantity(s: SideModel, price: i64, o: Order)
    requires
        side_wf(s),
        o.qty > 0,
    ensures
        total_qty(spec_push(s, price, o)) == total_qty(s) + o.qty,
        total_orders(spec_push(s, price, o)) == total_orders(s) + 1,
{
    lemma_push_props(s, price, o);
}

/// Quantity conservation across one whole submission: the resting
/// quantity of the two sides `submit` leaves behind is the resting
/// quantity it found, less what the pass traded, plus the remainder that
/// rested (a limit remainder exactly; nothing for a market order).
pub proof fn law_submit_conservation(
    opp0: SideModel,
    own0: SideModel,
    is_buy: bool,
    o: Order,
    ts: u64,
)
    requires
        side_wf(opp0),
        side_wf(own0),
        o.qty > 0,
    ensures
        ({
            let m = match_rec(opp0, is_buy, stamped(o, o.qty as int, ts), o.qty as int);
            let own1 = OrderBook::posted_own_side(own0, o, m.4, ts);
            total_qty(m.0) + total_qty(own1) == total_qty(opp0) + total_qty(own0) - m.3 + (
            if m.4 > 0 && o.typ == OrdType::Limit {
                m.4
            } else {
                0
            })
        }),
{
    let inc = stamped(o, o.qty as int, ts);
    lemma_match_props(opp0, is_buy, inc, o.qty as int);
    let m = match_rec(opp0, is_buy, inc, o.qty as int);
    if m.4 > 0 && o.typ == OrdType::Limit {
        lemma_push_props(own0, o.price, stamped(o, m.4, ts));
    }
}

/// FIFO priority: a matching pass consumes quantity from the oldest
/// resting order — the front of the best crossing level's queue — first.
/// A touch that only partly consumes that order leaves it at the front
/// with its identity unchanged and its quantity reduced, exhausting the
/// incoming order; a touch that consumes it removes exactly that order
/// and continues.
pub proof fn law_fifo_priority(s: SideModel, is_ask: bool, o: Order, rem: int)
    requires
        side_wf(s),
        rem > 0,
        s.len() > 0,
        crosses(o, s[best_idx(s, is_ask)].0),
    ensures
        ({
            let b = best_idx(s, is_ask);
            let q = s[b].1;
            let head = q[0];
            &&& (head.qty > rem ==> match_side(s, is_ask, o, rem) == s.update(
                b,
                (s[b].0, q.update(0, reduced(head, rem))),
            ) && match_remaining(s, is_ask, o, rem) == 0)
            &&& (head.qty <= rem ==> {
                let q2 = q.drop_first();
                let s2 = if q2.len() == 0 {
                    s.remove(b)
                } else {
                    s.update(b, (s[b].0, q2))
                };
                match_side(s, is_ask, o, rem) == match_side(s2, is_ask, o, rem - head.qty)
            })
        }),
{
    lemma_match_step(s, is_ask, o, rem);
}

/// What a queue consumed only from its front looks like: `tail` is the
/// last `tail.len()` orders of `q` in their original order, except that
/// the first of them may have had its quantity reduced in place, with
/// its identity — id, stamp, price, side, kind — unchanged.
pub open spec fn consumed_from_front(q: Seq<Order>, tail: Seq<Order>) -> bool {
    &&& tail.len() <= q.len()
    &&& (forall|k: int| 1 <= k < tail.len() ==> tail[k] == q[q.len() - tail.len() + k])
    &&& (tail.len() > 0 ==> ({
        let h = q[q.len() - tail.len()];
        ||| tail[0] == h
        ||| (tail[0].id == h.id && tail[0].ts == h.ts && tail[0].price == h.price && tail[0].side
            == h.side && tail[0].typ == h.typ && 0 < tail[0].qty < h.qty)
    }))
}

/// What a side consumed only from its best end looks like: `t` keeps the
/// levels of `s` furthest from the best end untouched and in order, and
/// the one remaining level nearest the best end — if any — keeps its
/// price and is consumed only from its queue's front.
pub open spec fn consumed_from_best(s: SideModel, t: SideModel, is_ask: bool) -> bool {
    &&& t.len() <= s.len()
    &&& (if is_ask {
        (forall|i: int| 1 <= i < t.len() ==> t[i] == s[s.len() - t.len() + i]) && (t.len() > 0
            ==> t[0].0 == s[s.len() - t.len()].0 && consumed_from_front(
            s[s.len() - t.len()].1,
            t[0].1,
        ))
    } else {
        (forall|i: int| 0 <= i < t.len() - 1 ==> t[i] == s[i]) && (t.len() > 0 ==> t[t.len()
            - 1].0 == s[t.len() - 1].0 && consumed_from_front(s[t.len() - 1].1, t[t.len() - 1].1))
    })
}

/// Whether the pass that turned `s` into `t` ended in a partial touch:
/// the order now at the front of the nearest remaining level differs —
/// its quantity was reduced in place — from the resting order it was.
pub open spec fn front_reduced(s: SideModel, t: SideModel, is_ask: bool) -> bool {
    t.len() > 0 && ({
        let q = if is_ask {
            s[s.len() - t.len()].1
        } else {
            s[t.len() - 1].1
        };
        let tail = if is_ask {
            t[0].1
        } else {
            t[t.len() - 1].1
        };
        tail.len() > 0 && tail.len() <= q.len() && tail[0] != q[q.len() - tail.len()]
    })
}

/// An untouched side is a trivial instance of front-only consumption.
proof fn lemma_consumed_refl(s: SideModel, is_ask: bool)
    ensures
        consumed_from_best(s, s, is_ask),
{
}

/// FIFO priority over a whole matching pass: whatever the incoming
/// order, the side a pass leaves behind is the original side consumed
/// only from its best end, each level only from its queue's front — no
/// resting order is reordered, skipped, or touched out of turn, and at
/// most the one order now at the front of the nearest remaining level
/// has shrunk in place.  The pass's touches exceed its full
/// consumptions by one exactly when that final partial touch happened.
#[verifier::rlimit(100)]
pub proof fn law_fifo_whole_pass(s: SideModel, is_ask: bool, o: Order, rem: int)
    requires
        side_wf(s),
        rem >= 0,
    ensures
        consumed_from_best(s, match_side(s, is_ask, o, rem), is_ask),
        match_trades(s, is_ask, o, rem) == match_filled_orders(s, is_ask, o, rem) + (
        if front_reduced(s, match_side(s, is_ask, o, rem), is_ask) {
            1int
        } else {
            0int
        }),
    decreases s.len(), best_queue_len(s, is_ask),
{
    let t = match_side(s, is_ask, o, rem);
    if rem <= 0 || s.len() == 0 {
        lemma_consumed_refl(s, is_ask);
        assert(!front_reduced(s, t, is_ask));
    } else {
        let b = best_idx(s, is_ask);
        let price = s[b].0;
        let q = s[b].1;
        if !crosses(o, price) || q.len() == 0 {
            lemma_consumed_refl(s, is_ask);
            assert(!front_reduced(s, t, is_ask));
        } else {
            let head = q[0];
            lemma_match_step(s, is_ask, o, rem);
            if head.qty > rem {
                let q2 = q.update(0, reduced(head, rem));
                assert(t == s.update(b, (price, q2)));
                assert(t.len() == s.len());
                assert(forall|i: int| 0 <= i < t.len() && i != b ==> t[i] == s[i]);
                assert(q2[0] == reduced(head, rem));
                assert(forall|k: int| 1 <= k < q2.len() ==> q2[k] == q[k]);
                assert(consumed_from_front(q, q2));
                assert(reduced(head, rem).qty == head.qty - rem);
                assert(q2[0] != q[0]);
                assert(front_reduced(s, t, is_ask));
            } else {
                let q2 = q.drop_first();
                let s2 = if q2.len() == 0 {
                    s.remove(b)
                } else {
                    s.update(b, (price, q2))
                };
                law_fifo_whole_pass(s2, is_ask, o, rem - head.qty);
                assert(t == match_side(s2, is_ask, o, rem - head.qty));
                assert(consumed_from_best(s2, t, is_ask));
                if q2.len() == 0 {
                    assert(forall|i: int|
                        0 <= i < s2.len() ==> #[trigger] s2[i] == (if i < b {
                            s[i]
                        } else {
                            s[i + 1]
                        }));
                    if is_ask {
                        assert(forall|i: int| 1 <= i < t.len() ==> t[i] == s2[s2.len() - t.len()
                            + i]);
                        assert(forall|i: int| 1 <= i < t.len() ==> t[i] == s[s.len() - t.len()
                            + i]);
                    } else {
                        assert(forall|i: int| 0 <= i < t.len() - 1 ==> t[i] == s2[i]);
                        assert(forall|i: int| 0 <= i < t.len() - 1 ==> t[i] == s[i]);
                    }
                } else {
                    assert(forall|k: int| 0 <= k < q2.len() ==> q2[k] == q[k + 1]);
                    assert(forall|i: int| 0 <= i < s2.len() && i != b ==> s2[i] == s[i]);
                    if is_ask {
                        if t.len() < s2.len() {
                            assert(forall|i: int| 1 <= i < t.len() ==> t[i] == s[s.len() - t.len()
                                + i]);
                            if t.len() > 0 {
                                assert(s2[s2.len() - t.len()] == s[s.len() - t.len()]);
                            }
                        } else {
                            assert(t.len() == s.len());
                            assert(forall|i: int| 1 <= i < t.len() ==> t[i] == s2[i]);
                            assert(consumed_from_front(q2, t[0].1));
                            assert(consumed_from_front(q, t[0].1)) by {
                                let tail = t[0].1;
                                assert(forall|k: int|
                                    1 <= k < tail.len() ==> tail[k] == q2[q2.len() - tail.len()
                                        + k]);
                                assert(forall|k: int|
                                    1 <= k < tail.len() ==> tail[k] == q[q.len() - tail.len()
                                        + k]);
                                if tail.len() > 0 {
                                    assert(q2[q2.len() - tail.len()] == q[q.len() - tail.len()]);
                                }
                            }
                        }
                    } else {
                        if t.len() < s2.len() {
                            assert(forall|i: int| 0 <= i < t.len() - 1 ==> t[i] == s[i]);
                            if t.len() > 0 {
                                assert(s2[t.len() - 1] == s[t.len() - 1]);
                            }
                        } else {
                            assert(t.len() == s.len());
                            assert(forall|i: int| 0 <= i < t.len() - 1 ==> t[i] == s2[i]);
                            assert(consumed_from_front(q2, t[t.len() - 1].1));
                            assert(consumed_from_front(q, t[t.len() - 1].1)) by {
                                let tail = t[t.len() - 1].1;
                                assert(forall|k: int|
                                    1 <= k < tail.len() ==> tail[k] == q2[q2.len() - tail.len()
                                        + k]);
                                assert(forall|k: int|
                                    1 <= k < tail.len() ==> tail[k] == q[q.len() - tail.len()
                                        + k]);
                                if tail.len() > 0 {
                                    assert(q2[q2.len() - tail.len()] == q[q.len() - tail.len()]);
                                }
                            }
                        }
                    }
                }
                assert(match_trades(s, is_ask, o, rem) == match_trades(
                    s2,
                    is_ask,
                    o,
                    rem - head.qty,
                ) + 1);
                assert(match_filled_orders(s, is_ask, o, rem) == match_filled_orders(
                    s2,
                    is_ask,
                    o,
                    rem - head.qty,
                ) + 1);
                if t.len() > 0 {
                    if q2.len() == 0 {
                        if is_ask {
                            assert(s2[s2.len() - t.len()] == s[s.len() - t.len()]);
                        } else {
                            assert(s2[t.len() - 1] == s[t.len() - 1]);
                        }
                    } else {
                        if is_ask {
                            if t.len() < s2.len() {
                                assert(s2[s2.len() - t.len()] == s[s.len() - t.len()]);
                            } else {
                                let tail = t[0].1;
                                assert(tail.len() <= q2.len());
                                if tail.len() > 0 {
                                    assert(q2[q2.len() - tail.len()] == q[q.len() - tail.len()]);
                                }
                            }
                        } else {
                            if t.len() < s2.len() {
                                assert(s2[t.len() - 1] == s[t.len() - 1]);
                            } else {
                                let tail = t[t.len() - 1].1;
                                assert(tail.len() <= q2.len());
                                if tail.len() > 0 {
                                    assert(q2[q2.len() - tail.len()] == q[q.len() - tail.len()]);
                                }
                            }
                        }
                    }
                }
                assert(front_reduced(s, t, is_ask) == front_reduced(s2, t, is_ask));
            }
        }
    }
}

/// Market orders never rest: whatever the fill outcome, submitting a
/// market order leaves the side it arrived on exactly as it was.
pub proof fn law_market_never_rests(own0: SideModel, o: Order, remaining: int, ts: u64)
    requires
        o.typ == OrdType::Market,
    ensures
        OrderBook::posted_own_side(own0, o, remaining, ts) == own0,
{
}

/// Trade counting: `trades` counts resting-order touches, not `submit`
/// calls.  Every fully consumed resting order is one touch and leaves
/// the book; exactly one further touch is counted on top of those when
/// the pass ends in a partial touch, which also exhausts the incoming
/// order — and none otherwise.
pub proof fn law_trade_counting(s: SideModel, is_ask: bool, o: Order, rem: int)
    requires
        side_wf(s),
        rem >= 0,
    ensures
        match_filled_orders(s, is_ask, o, rem) == total_orders(s) - total_orders(
            match_side(s, is_ask, o, rem),
        ),
        match_trades(s, is_ask, o, rem) == match_filled_orders(s, is_ask, o, rem) + (
        if front_reduced(s, match_side(s, is_ask, o, rem), is_ask) {
            1int
        } else {
            0int
        }),
        match_trades(s, is_ask, o, rem) == match_filled_orders(s, is_ask, o, rem) + 1
            ==> match_remaining(s, is_ask, o, rem) == 0,
{
    lemma_match_props(s, is_ask, o, rem);
    law_fifo_whole_pass(s, is_ask, o, rem);
}

} // verus!
