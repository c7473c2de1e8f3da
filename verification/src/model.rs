//! The mathematical model of one side of the book, and of the matching
//! pass over it.
//!
//! A side is modelled as a sequence of `(price, queue)` pairs, sorted by
//! strictly increasing price; each queue lists the resting orders at that
//! price, oldest first.  The ask side's best level is the first element
//! (minimum price), the bid side's best is the last (maximum price).
//! [`match_rec`] defines, by recursion over the resting orders consumed,
//! exactly what one matching pass returns and what it leaves behind.

use vstd::prelude::*;

use crate::orders::OrdType;
use crate::orders::Order;
use crate::orders::Side;

verus! {

/// One side of the book: `(price, resting orders oldest-first)` pairs,
/// sorted by strictly increasing price.
pub type SideModel = Seq<(i64, Seq<Order>)>;

/// Well-formedness of a side: prices strictly increasing, no empty
/// level, and every resting order carries positive quantity.
pub open spec fn side_wf(s: SideModel) -> bool {
    &&& forall|i: int, j: int| 0 <= i < j < s.len() ==> s[i].0 < s[j].0
    &&& forall|i: int| 0 <= i < s.len() ==> s[i].1.len() > 0
    &&& forall|i: int, k: int|
        0 <= i < s.len() && 0 <= k < s[i].1.len() ==> s[i].1[k].qty > 0
}

/// Index of the best level: minimum price for the ask side, maximum
/// price for the bid side.  Meaningful only when `s` is non-empty.
pub open spec fn best_idx(s: SideModel, is_ask: bool) -> int {
    if is_ask {
        0
    } else {
        s.len() - 1
    }
}

/// Length of the best level's queue, or 0 on an empty side; the
/// secondary termination measure of [`match_rec`].
pub open spec fn best_queue_len(s: SideModel, is_ask: bool) -> int {
    if s.len() > 0 {
        s[best_idx(s, is_ask)].1.len() as int
    } else {
        0
    }
}

/// Price compatibility: a market order crosses any level; a limit buy
/// crosses a level no dearer than its limit, a limit sell a level no
/// cheaper than its limit.
pub open spec fn crosses(o: Order, level_price: i64) -> bool {
    match o.typ {
        OrdType::Market => true,
        OrdType::Limit => match o.side {
            Side::Buy => level_price <= o.price,
            Side::Sell => level_price >= o.price,
        },
    }
}

/// The order left at the front of a level after a partial touch: the
/// same order with its quantity reduced by the traded amount.
pub open spec fn reduced(head: Order, trade_qty: int) -> Order {
    Order {
        id: head.id,
        side: head.side,
        typ: head.typ,
        price: head.price,
        qty: (head.qty - trade_qty) as i64,
        ts: head.ts,
    }
}

/// The order as the book carries it: the caller's order with its
/// quantity set to `qty` and the book's stamp `ts` as its logical time.
pub open spec fn stamped(o: Order, qty: int, ts: u64) -> Order {
    Order { id: o.id, side: o.side, typ: o.typ, price: o.price, qty: qty as i64, ts: ts }
}

/// One full matching pass of the incoming order `o` with `rem` units
/// still unmatched, against the side `s` (`is_ask` tells which end is
/// best).  Returns `(side left behind, trades, filled_orders,
/// filled_qty, remaining)`.
///
/// Each recursive step consumes the oldest order of the best crossing
/// level: one touch counts one trade whether it empties the resting
/// order or not; a partially consumed resting order keeps the front of
/// its queue and necessarily exhausts the incoming order; a level whose
/// queue empties is deleted.
pub open spec fn match_rec(s: SideModel, is_ask: bool, o: Order, rem: int) -> (
    SideModel,
    int,
    int,
    int,
    int,
)
    decreases s.len(), best_queue_len(s, is_ask),
{
    if rem <= 0 || s.len() == 0 {
        (s, 0, 0, 0, rem)
    } else {
        let b = best_idx(s, is_ask);
        let price = s[b].0;
        let q = s[b].1;
        if !crosses(o, price) || q.len() == 0 {
            // A well-formed side has no empty level; the guard keeps the
            // definition total.
            (s, 0, 0, 0, rem)
        } else {
            let head = q[0];
            if head.qty > rem {
                // Partial touch: the front order shrinks in place and the
                // incoming order is exhausted.
                (s.update(b, (price, q.update(0, reduced(head, rem)))), 1, 0, rem, 0)
            } else {
                // The oldest resting order is fully consumed.
                let q2 = q.drop_first();
                let s2 = if q2.len() == 0 {
                    s.remove(b)
                } else {
                    s.update(b, (price, q2))
                };
                let r = match_rec(s2, is_ask, o, rem - head.qty);
                (r.0, r.1 + 1, r.2 + 1, r.3 + head.qty, r.4)
            }
        }
    }
}

/// The side left behind by a matching pass.
pub open spec fn match_side(s: SideModel, is_ask: bool, o: Order, rem: int) -> SideModel {
    match_rec(s, is_ask, o, rem).0
}

/// Resting-order touches of a matching pass: one per pop, partial
/// touches included.
pub open spec fn match_trades(s: SideModel, is_ask: bool, o: Order, rem: int) -> int {
    match_rec(s, is_ask, o, rem).1
}

/// Resting orders fully consumed by a matching pass.
pub open spec fn match_filled_orders(s: SideModel, is_ask: bool, o: Order, rem: int) -> int {
    match_rec(s, is_ask, o, rem).2
}

/// Quantity exchanged by a matching pass.
pub open spec fn match_filled_qty(s: SideModel, is_ask: bool, o: Order, rem: int) -> int {
    match_rec(s, is_ask, o, rem).3
}

/// What is left of the incoming order after a matching pass.
pub open spec fn match_remaining(s: SideModel, is_ask: bool, o: Order, rem: int) -> int {
    match_rec(s, is_ask, o, rem).4
}

/// Insertion of a resting order: appended to the back of its price's
/// queue, the level itself created at its sorted position if absent.
pub open spec fn spec_push(s: SideModel, price: i64, o: Order) -> SideModel
    decreases s.len(),
{
    if s.len() == 0 {
        seq![(price, seq![o])]
    } else if price < s[0].0 {
        seq![(price, seq![o])] + s
    } else if price == s[0].0 {
        s.update(0, (price, s[0].1.push(o)))
    } else {
        seq![s[0]] + spec_push(s.drop_first(), price, o)
    }
}

/// Number of resting orders on a side.
pub open spec fn total_orders(s: SideModel) -> int
    decreases s.len(),
{
    if s.len() == 0 {
        0
    } else {
        s[0].1.len() + total_orders(s.drop_first())
    }
}

/// Total quantity of a queue of resting orders.
pub open spec fn queue_qty(q: Seq<Order>) -> int
    decreases q.len(),
{
    if q.len() == 0 {
        0
    } else {
        q[0].qty + queue_qty(q.drop_first())
    }
}

/// Total resting quantity on a side.
pub open spec fn total_qty(s: SideModel) -> int
    decreases s.len(),
{
    if s.len() == 0 {
        0
    } else {
        queue_qty(s[0].1) + total_qty(s.drop_first())
    }
}

/// `queue_qty` of an updated front order.
pub proof fn lemma_queue_qty_update0(q: Seq<Order>, h2: Order)
    requires
        q.len() > 0,
    ensures
        queue_qty(q.update(0, h2)) == queue_qty(q) - q[0].qty + h2.qty,
{
    assert(q.update(0, h2).drop_first() =~= q.drop_first());
}

/// `queue_qty` of a queue with one order appended.
pub proof fn lemma_queue_qty_push(q: Seq<Order>, o: Order)
    ensures
        queue_qty(q.push(o)) == queue_qty(q) + o.qty,
    decreases q.len(),
{
    if q.len() == 0 {
        assert(q.push(o)[0] == o);
        assert(q.push(o).drop_first() =~= Seq::<Order>::empty());
        assert(queue_qty(q.push(o).drop_first()) == 0);
        assert(queue_qty(q.push(o)) == o.qty);
    } else {
        assert(q.push(o).drop_first() =~= q.drop_first().push(o));
        lemma_queue_qty_push(q.drop_first(), o);
        assert(q.push(o)[0] == q[0]);
        assert(queue_qty(q.push(o)) == q[0].qty + queue_qty(q.drop_first().push(o)));
    }
}

/// The resting-order count is a sum of queue lengths, so non-negative.
pub proof fn lemma_totals_nonneg(s: SideModel)
    ensures
        total_orders(s) >= 0,
    decreases s.len(),
{
    if s.len() > 0 {
        lemma_totals_nonneg(s.drop_first());
    }
}

/// How replacing one level changes the side's totals.
pub proof fn lemma_totals_update(s: SideModel, b: int, pq: (i64, Seq<Order>))
    requires
        0 <= b < s.len(),
    ensures
        total_orders(s.update(b, pq)) == total_orders(s) - s[b].1.len() + pq.1.len(),
        total_qty(s.update(b, pq)) == total_qty(s) - queue_qty(s[b].1) + queue_qty(pq.1),
    decreases b,
{
    if b == 0 {
        assert(s.update(0, pq).drop_first() =~= s.drop_first());
    } else {
        assert(s.update(b, pq).drop_first() =~= s.drop_first().update(b - 1, pq));
        lemma_totals_update(s.drop_first(), b - 1, pq);
    }
}

/// How deleting one level changes the side's totals.
pub proof fn lemma_totals_remove(s: SideModel, b: int)
    requires
        0 <= b < s.len(),
    ensures
        total_orders(s.remove(b)) == total_orders(s) - s[b].1.len(),
        total_qty(s.remove(b)) == total_qty(s) - queue_qty(s[b].1),
    decreases b,
{
    if b == 0 {
        assert(s.remove(0) =~= s.drop_first());
    } else {
        assert(s.remove(b).drop_first() =~= s.drop_first().remove(b - 1));
        lemma_totals_remove(s.drop_first(), b - 1);
    }
}

/// How inserting one level changes the side's totals.
pub proof fn lemma_totals_insert(s: SideModel, b: int, pq: (i64, Seq<Order>))
    requires
        0 <= b <= s.len(),
    ensures
        total_orders(s.insert(b, pq)) == total_orders(s) + pq.1.len(),
        total_qty(s.insert(b, pq)) == total_qty(s) + queue_qty(pq.1),
    decreases b,
{
    if b == 0 {
        assert(s.insert(0, pq).drop_first() =~= s);
        assert(s.insert(0, pq)[0] == pq);
    } else {
        assert(s.insert(b, pq).drop_first() =~= s.drop_first().insert(b - 1, pq));
        lemma_totals_insert(s.drop_first(), b - 1, pq);
    }
}

/// Pushing at a price that already has a level appends the order to the
/// back of that level's queue and changes nothing else.
pub proof fn lemma_push_existing(s: SideModel, price: i64, o: Order, j: int)
    requires
        forall|i1: int, i2: int| 0 <= i1 < i2 < s.len() ==> s[i1].0 < s[i2].0,
        0 <= j < s.len(),
        s[j].0 == price,
    ensures
        spec_push(s, price, o) == s.update(j, (price, s[j].1.push(o))),
    decreases j,
{
    if j == 0 {
    } else {
        assert(s[0].0 < s[j].0);
        let d = s.drop_first();
        assert(forall|i1: int, i2: int| 0 <= i1 < i2 < d.len() ==> d[i1].0 < d[i2].0) by {
            assert(forall|i: int| 0 <= i < d.len() ==> d[i] == s[i + 1]);
        }
        lemma_push_existing(d, price, o, j - 1);
        assert(seq![s[0]] + d.update(j - 1, (price, d[j - 1].1.push(o))) =~= s.update(
            j,
            (price, s[j].1.push(o)),
        ));
    }
}

/// Pushing at a price with no level yet creates a singleton level at the
/// sorted position and changes nothing else.
pub proof fn lemma_push_new(s: SideModel, price: i64, o: Order, j: int)
    requires
        forall|i1: int, i2: int| 0 <= i1 < i2 < s.len() ==> s[i1].0 < s[i2].0,
        0 <= j <= s.len(),
        forall|i: int| 0 <= i < j ==> s[i].0 < price,
        forall|i: int| j <= i < s.len() ==> s[i].0 > price,
    ensures
        spec_push(s, price, o) == s.insert(j, (price, seq![o])),
    decreases j,
{
    if j == 0 {
        if s.len() == 0 {
            assert(spec_push(s, price, o) =~= s.insert(0, (price, seq![o])));
        } else {
            assert(s[0].0 > price);
            assert(seq![(price, seq![o])] + s =~= s.insert(0, (price, seq![o])));
        }
    } else {
        assert(s[0].0 < price);
        let d = s.drop_first();
        assert(forall|i: int| 0 <= i < d.len() ==> d[i] == s[i + 1]);
        lemma_push_new(d, price, o, j - 1);
        assert(seq![s[0]] + d.insert(j - 1, (price, seq![o])) =~= s.insert(j, (price, seq![o])));
    }
}

/// What insertion preserves and how it moves the side's totals and its
/// best prices: well-formedness is kept, one order and its quantity are
/// added, and each end's price only improves to the new price when that
/// price is strictly better.
pub proof fn lemma_push_props(s: SideModel, price: i64, o: Order)
    requires
        side_wf(s),
        o.qty > 0,
    ensures
        ({
            let r = spec_push(s, price, o);
            &&& side_wf(r)
            &&& r.len() > 0
            &&& total_orders(r) == total_orders(s) + 1
            &&& total_qty(r) == total_qty(s) + o.qty
            &&& r[0].0 == (if s.len() == 0 || price < s[0].0 {
                price
            } else {
                s[0].0
            })
            &&& r[r.len() - 1].0 == (if s.len() == 0 || price > s[s.len() - 1].0 {
                price
            } else {
                s[s.len() - 1].0
            })
        }),
    decreases s.len(),
{
    let r = spec_push(s, price, o);
    let unit: Seq<Order> = seq![o];
    assert(unit[0] == o);
    assert(unit.drop_first() =~= Seq::<Order>::empty());
    assert(queue_qty(Seq::<Order>::empty()) == 0);
    assert(queue_qty(unit) == o.qty);
    if s.len() == 0 {
        assert(r =~= Seq::<(i64, Seq<Order>)>::empty().insert(0, (price, unit)));
        lemma_totals_insert(Seq::<(i64, Seq<Order>)>::empty(), 0, (price, unit));
        assert(r[0].1 == unit);
    } else if price < s[0].0 {
        assert(r =~= s.insert(0, (price, unit)));
        lemma_totals_insert(s, 0, (price, unit));
        assert(forall|i: int| 1 <= i < r.len() ==> r[i] == s[i - 1]);
        assert(r[0] == (price, unit));
    } else if price == s[0].0 {
        assert(r == s.update(0, (price, s[0].1.push(o))));
        lemma_totals_update(s, 0, (price, s[0].1.push(o)));
        lemma_queue_qty_push(s[0].1, o);
        assert(forall|i: int| 1 <= i < r.len() ==> r[i] == s[i]);
        assert(r[0].1 == s[0].1.push(o));
        assert(forall|k: int| 0 <= k < r[0].1.len() ==> r[0].1[k].qty > 0) by {
            assert(forall|k: int| 0 <= k < s[0].1.len() ==> r[0].1[k] == s[0].1[k]);
            assert(r[0].1[s[0].1.len() as int] == o);
        }
    } else {
        let d = s.drop_first();
        assert(forall|i: int| 0 <= i < d.len() ==> d[i] == s[i + 1]);
        lemma_push_props(d, price, o);
        let r2 = spec_push(d, price, o);
        assert(r =~= r2.insert(0, s[0]));
        lemma_totals_insert(r2, 0, s[0]);
        assert(forall|i: int| 1 <= i < r.len() ==> r[i] == r2[i - 1]);
        assert(r[0] == s[0]);
        assert(s[0].0 < r2[0].0);
        assert(total_orders(s) == s[0].1.len() + total_orders(d));
        assert(total_qty(s) == queue_qty(s[0].1) + total_qty(d));
        assert(forall|i1: int, i2: int| 0 <= i1 < i2 < r.len() ==> r[i1].0 < r[i2].0) by {
            assert(forall|i2: int| 1 <= i2 < r.len() ==> r[0].0 < #[trigger] r[i2].0) by {
                assert(forall|j: int| 0 <= j < r2.len() ==> r2[0].0 <= #[trigger] r2[j].0);
            }
        }
        assert(r[r.len() - 1] == r2[r2.len() - 1]);
        assert(s[s.len() - 1] == (if d.len() == 0 {
            s[0]
        } else {
            d[d.len() - 1]
        }));
    }
}

/// The facts every matching pass obeys: the side stays well formed; the
/// traded and remaining quantities split the incoming quantity exactly;
/// one resting order leaves the book per fully consumed order and none
/// otherwise; touches exceed full consumptions by at most the one final
/// partial touch; levels only disappear from the best end, so the best
/// price never improves; and a pass that leaves quantity unmatched ends
/// on a non-crossing level.
pub proof fn lemma_match_props(s: SideModel, is_ask: bool, o: Order, rem: int)
    requires
        side_wf(s),
        rem >= 0,
    ensures
        ({
            let r = match_rec(s, is_ask, o, rem);
            &&& side_wf(r.0)
            &&& 0 <= r.2 && r.2 <= r.1 && r.1 <= r.2 + 1
            &&& r.1 <= total_orders(s)
            &&& 0 <= r.3 && 0 <= r.4 && r.3 + r.4 == rem
            &&& total_orders(r.0) == total_orders(s) - r.2
            &&& total_qty(r.0) == total_qty(s) - r.3
            &&& r.0.len() <= s.len()
            &&& (r.0.len() > 0 && s.len() > 0 ==> (if is_ask {
                r.0[0].0 >= s[0].0
            } else {
                r.0[r.0.len() - 1].0 <= s[s.len() - 1].0
            }))
            &&& (r.4 > 0 && r.0.len() > 0 ==> !crosses(o, r.0[best_idx(r.0, is_ask)].0))
            &&& (r.1 == r.2 + 1 ==> r.4 == 0)
        }),
    decreases s.len(), best_queue_len(s, is_ask),
{
    lemma_totals_nonneg(s);
    let r = match_rec(s, is_ask, o, rem);
    if rem <= 0 || s.len() == 0 {
    } else {
        let b = best_idx(s, is_ask);
        let price = s[b].0;
        let q = s[b].1;
        if !crosses(o, price) || q.len() == 0 {
        } else {
            let head = q[0];
            assert(head.qty > 0);
            lemma_totals_remove(s, b);
            lemma_totals_nonneg(s.remove(b));
            assert(total_orders(s) >= q.len());
            if head.qty > rem {
                let q2 = q.update(0, reduced(head, rem));
                let s2 = s.update(b, (price, q2));
                assert(r == (s2, 1int, 0int, rem, 0int));
                lemma_totals_update(s, b, (price, q2));
                lemma_queue_qty_update0(q, reduced(head, rem));
                assert(reduced(head, rem).qty == head.qty - rem);
                assert(forall|i: int| 0 <= i < s2.len() && i != b ==> s2[i] == s[i]);
                assert(forall|i: int| 0 <= i < s2.len() ==> (#[trigger] s2[i]).0 == s[i].0);
                assert(forall|k: int| 0 <= k < q2.len() ==> #[trigger] q2[k].qty > 0) by {
                    assert(forall|k: int| 1 <= k < q2.len() ==> q2[k] == q[k]);
                    assert(q2[0] == reduced(head, rem));
                }
                assert(side_wf(s2)) by {
                    assert(forall|i: int, k: int|
                        0 <= i < s2.len() && 0 <= k < s2[i].1.len() ==> s2[i].1[k].qty > 0) by {
                        assert(forall|i: int| 0 <= i < s2.len() && i != b ==> s2[i] == s[i]);
                        assert(s2[b].1 == q2);
                    }
                }
            } else {
                let q2 = q.drop_first();
                assert(q2.len() == q.len() - 1);
                assert(forall|k: int| 0 <= k < q2.len() ==> q2[k] == q[k + 1]);
                assert(queue_qty(q) == head.qty + queue_qty(q2));
                let s2 = if q2.len() == 0 {
                    s.remove(b)
                } else {
                    s.update(b, (price, q2))
                };
                if q2.len() == 0 {
                    assert(q.len() == 1);
                    assert(queue_qty(Seq::<Order>::empty()) == 0);
                    assert(q2 =~= Seq::<Order>::empty());
                    assert(queue_qty(q) == head.qty);
                    assert(forall|i: int|
                        0 <= i < s2.len() ==> #[trigger] s2[i] == (if i < b {
                            s[i]
                        } else {
                            s[i + 1]
                        }));
                    assert(side_wf(s2));
                    assert(total_orders(s2) == total_orders(s) - 1);
                    assert(total_qty(s2) == total_qty(s) - head.qty);
                } else {
                    lemma_totals_update(s, b, (price, q2));
                    assert(forall|i: int| 0 <= i < s2.len() && i != b ==> s2[i] == s[i]);
                    assert(forall|i: int| 0 <= i < s2.len() ==> (#[trigger] s2[i]).0 == s[i].0);
                    assert(side_wf(s2)) by {
                        assert(forall|i: int, k: int|
                            0 <= i < s2.len() && 0 <= k < s2[i].1.len() ==> s2[i].1[k].qty > 0)
                            by {
                            assert(forall|i: int| 0 <= i < s2.len() && i != b ==> s2[i] == s[i]);
                            assert(s2[b].1 == q2);
                        }
                    }
                    assert(total_orders(s2) == total_orders(s) - 1);
                    assert(total_qty(s2) == total_qty(s) - head.qty);
                }
                lemma_match_props(s2, is_ask, o, rem - head.qty);
                let r2 = match_rec(s2, is_ask, o, rem - head.qty);
                assert(r == (r2.0, r2.1 + 1, r2.2 + 1, r2.3 + head.qty, r2.4));
                if r.0.len() > 0 {
                    assert(s2.len() > 0);
                    if is_ask {
                        assert(s2[0].0 >= s[0].0);
                    } else {
                        assert(s2[s2.len() - 1].0 <= s[s.len() - 1].0);
                    }
                }
            }
        }
    }
}

/// One touch of a matching pass, made explicit: quantity is always
/// consumed from the front — the oldest — order of the best crossing
/// level.  A touch that only partly consumes that order leaves it at the
/// front of its queue, identity unchanged and quantity reduced, and
/// exhausts the incoming order; a touch that consumes it removes exactly
/// that order (and its level, once empty) and the pass continues.
pub proof fn lemma_match_step(s: SideModel, is_ask: bool, o: Order, rem: int)
    requires
        side_wf(s),
        rem > 0,
        s.len() > 0,
        crosses(o, s[best_idx(s, is_ask)].0),
    ensures
        ({
            let b = best_idx(s, is_ask);
            let price = s[b].0;
            let q = s[b].1;
            let head = q[0];
            let r = match_rec(s, is_ask, o, rem);
            &&& (head.qty > rem ==> {
                let s2 = s.update(b, (price, q.update(0, reduced(head, rem))));
                r == (s2, 1int, 0int, rem, 0int) && side_wf(s2)
            })
            &&& (head.qty <= rem ==> {
                let q2 = q.drop_first();
                let s2 = if q2.len() == 0 {
                    s.remove(b)
                } else {
                    s.update(b, (price, q2))
                };
                let r2 = match_rec(s2, is_ask, o, rem - head.qty);
                r == (r2.0, r2.1 + 1, r2.2 + 1, r2.3 + head.qty, r2.4) && side_wf(s2)
            })
        }),
{
    let b = best_idx(s, is_ask);
    let price = s[b].0;
    let q = s[b].1;
    let head = q[0];
    assert(q.len() > 0);
    assert(head.qty > 0);
    if head.qty > rem {
        let q2 = q.update(0, reduced(head, rem));
        let s2 = s.update(b, (price, q2));
        assert(forall|i: int| 0 <= i < s2.len() && i != b ==> s2[i] == s[i]);
        assert(forall|i: int| 0 <= i < s2.len() ==> (#[trigger] s2[i]).0 == s[i].0);
        assert(forall|k: int| 0 <= k < q2.len() ==> #[trigger] q2[k].qty > 0) by {
            assert(forall|k: int| 1 <= k < q2.len() ==> q2[k] == q[k]);
            assert(q2[0] == reduced(head, rem));
        }
        assert(side_wf(s2)) by {
            assert(forall|i: int, k: int|
                0 <= i < s2.len() && 0 <= k < s2[i].1.len() ==> s2[i].1[k].qty > 0) by {
                assert(forall|i: int| 0 <= i < s2.len() && i != b ==> s2[i] == s[i]);
                assert(s2[b].1 == q2);
            }
        }
    } else {
        let q2 = q.drop_first();
        assert(forall|k: int| 0 <= k < q2.len() ==> q2[k] == q[k + 1]);
        if q2.len() == 0 {
            let s2 = s.remove(b);
            assert(forall|i: int|
                0 <= i < s2.len() ==> #[trigger] s2[i] == (if i < b {
                    s[i]
                } else {
                    s[i + 1]
                }));
            assert(side_wf(s2));
        } else {
            let s2 = s.update(b, (price, q2));
            assert(forall|i: int| 0 <= i < s2.len() && i != b ==> s2[i] == s[i]);
            assert(forall|i: int| 0 <= i < s2.len() ==> (#[trigger] s2[i]).0 == s[i].0);
            assert(side_wf(s2)) by {
                assert(forall|i: int, k: int|
                    0 <= i < s2.len() && 0 <= k < s2[i].1.len() ==> s2[i].1[k].qty > 0) by {
                    assert(forall|i: int| 0 <= i < s2.len() && i != b ==> s2[i] == s[i]);
                    assert(s2[b].1 == q2);
                }
            }
        }
    }
}

} // verus!
