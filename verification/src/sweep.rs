//! The crossing algorithm, as a mathematical specification: sweeping a
//! FIFO queue with a volume budget, and sweeping a side book best-first
//! under an optional limit-price bound and an optional quote budget. The
//! matcher in `books` is specified against these functions.

use vstd::prelude::*;

use crate::model::BookModel;
use crate::model::LevelModel;
use crate::model::book_has_id;
use crate::model::book_wf;
use crate::model::lemma_remove_level;
use crate::model::queue_has_id;
use crate::orders::OrderId;
use crate::orders::OrderPrice;
use crate::orders::OrderQuote;
use crate::orders::OrderSide;
use crate::orders::OrderVolume;
use crate::orders::OrderbookOrder;

verus! {

/// One fill: the resting (maker) order it hit, the price it traded at,
/// the maker's volume before the trade, and the post-trade remaining
/// volumes of the incoming (taker) order and of the maker.
#[derive(Copy, Clone, Debug, PartialEq, Eq, Structural)]
pub struct Fill {
    pub maker_id: OrderId,
    pub price: OrderPrice,
    pub maker_before: OrderVolume,
    pub taker_after: OrderVolume,
    pub maker_after: OrderVolume,
}

/// The incoming order's remaining volume just before its `t`-th fill.
pub open spec fn taker_before(fills: Seq<Fill>, t: int, v0: OrderVolume) -> OrderVolume {
    if t == 0 {
        v0
    } else {
        fills[t - 1].taker_after
    }
}

/// The outcome of sweeping one FIFO queue: the surviving queue, what is
/// left of the taker's volume and of the per-level volume ceiling, and the
/// fills in the order they happened.
pub ghost struct QueueSweep {
    pub queue: Seq<OrderbookOrder>,
    pub taker_left: OrderVolume,
    pub cap_left: OrderVolume,
    pub fills: Seq<Fill>,
}

/// The outcome of sweeping a side book: the surviving book, what is left
/// of the taker's volume and quote budget, and the fills in order.
pub ghost struct BookSweep {
    pub book: BookModel,
    pub taker_left: OrderVolume,
    pub quote_left: Option<OrderQuote>,
    pub fills: Seq<Fill>,
}

/// Sweep the queue at price `p` head-first with taker volume `v`, trading
/// at most `cap` in total. Each resting order either fully fills the
/// remaining ceiling and survives with the difference, or is exhausted
/// and the sweep moves on.
pub open spec fn sweep_queue(q: Seq<OrderbookOrder>, v: OrderVolume, cap: OrderVolume, p: OrderPrice) -> QueueSweep
    recommends
        cap <= v,
    decreases q.len(),
{
    if q.len() == 0 || cap == 0 {
        QueueSweep { queue: q, taker_left: v, cap_left: cap, fills: Seq::empty() }
    } else {
        let m = q[0];
        if m.remaining_volume >= cap {
            let m2 = OrderbookOrder {
                id: m.id,
                remaining_volume: (m.remaining_volume - cap) as u64,
            };
            let f = Fill {
                maker_id: m.id,
                price: p,
                maker_before: m.remaining_volume,
                taker_after: (v - cap) as u64,
                maker_after: m2.remaining_volume,
            };
            QueueSweep {
                queue: if m2.remaining_volume == 0 {
                    q.drop_first()
                } else {
                    q.update(0, m2)
                },
                taker_left: (v - cap) as u64,
                cap_left: 0,
                fills: seq![f],
            }
        } else {
            let amt = m.remaining_volume;
            let f = Fill {
                maker_id: m.id,
                price: p,
                maker_before: m.remaining_volume,
                taker_after: (v - amt) as u64,
                maker_after: 0,
            };
            let rest = sweep_queue(q.drop_first(), (v - amt) as u64, (cap - amt) as u64, p);
            QueueSweep {
                queue: rest.queue,
                taker_left: rest.taker_left,
                cap_left: rest.cap_left,
                fills: seq![f] + rest.fills,
            }
        }
    }
}

/// The index of the best level of a book being swept: the first (lowest
/// price) when sweeping asks, the last (highest price) when sweeping bids.
pub open spec fn best_idx(b: BookModel, swept: OrderSide) -> int
    recommends
        b.len() > 0,
{
    if swept is Ask {
        0
    } else {
        b.len() - 1
    }
}

/// Whether a level at price `p` of the swept book is crossable against an
/// incoming limit price: an ask is crossable when it does not exceed the
/// bound, a bid when it is not below it. No bound means any price matches.
pub open spec fn crossable(swept: OrderSide, p: OrderPrice, bound: Option<OrderPrice>) -> bool {
    match bound {
        Option::None => true,
        Option::Some(lim) => if swept is Ask {
            p <= lim
        } else {
            p >= lim
        },
    }
}

/// The volume ceiling for one level at price `p`: the taker's remaining
/// volume, further capped by what the remaining quote budget can afford
/// at this price.
pub open spec fn level_cap(v: OrderVolume, quote: Option<OrderQuote>, p: OrderPrice) -> OrderVolume {
    match quote {
        Option::None => v,
        Option::Some(qv) => if p > 0 && v > qv / p {
            qv / p
        } else {
            v
        },
    }
}

/// The quote budget left after trading `traded` lots at price `p`.
pub open spec fn quote_after(quote: Option<OrderQuote>, traded: int, p: OrderPrice) -> Option<
    OrderQuote,
> {
    match quote {
        Option::None => Option::None,
        Option::Some(qv) => Option::Some((qv - traded * p) as u64),
    }
}

/// Sweep a side book best-first: stop at the first level that is not
/// crossable or that the quote budget can no longer afford; otherwise
/// sweep its queue under the level ceiling, drop the level once empty,
/// and carry on with the rest of the book.
pub open spec fn sweep_book(
    b: BookModel,
    swept: OrderSide,
    bound: Option<OrderPrice>,
    v: OrderVolume,
    quote: Option<OrderQuote>,
) -> BookSweep
    decreases b.len(),
{
    if b.len() == 0 || v == 0 {
        BookSweep { book: b, taker_left: v, quote_left: quote, fills: Seq::empty() }
    } else {
        let i = best_idx(b, swept);
        let lvl = b[i];
        if !crossable(swept, lvl.price, bound) {
            BookSweep { book: b, taker_left: v, quote_left: quote, fills: Seq::empty() }
        } else {
            let cap = level_cap(v, quote, lvl.price);
            if cap == 0 {
                BookSweep { book: b, taker_left: v, quote_left: quote, fills: Seq::empty() }
            } else {
                let qs = sweep_queue(lvl.queue, v, cap, lvl.price);
                let quote2 = quote_after(quote, v - qs.taker_left, lvl.price);
                if qs.queue.len() > 0 {
                    BookSweep {
                        book: b.update(i, LevelModel { price: lvl.price, queue: qs.queue }),
                        taker_left: qs.taker_left,
                        quote_left: quote2,
                        fills: qs.fills,
                    }
                } else {
                    let rest = sweep_book(b.remove(i), swept, bound, qs.taker_left, quote2);
                    BookSweep {
                        book: rest.book,
                        taker_left: rest.taker_left,
                        quote_left: rest.quote_left,
                        fills: qs.fills + rest.fills,
                    }
                }
            }
        }
    }
}

/// No two fills hit the same maker.
pub open spec fn fill_makers_distinct(fills: Seq<Fill>) -> bool {
    forall|t1: int, t2: int|
        0 <= t1 < t2 < fills.len() ==> (#[trigger] fills[t1]).maker_id != (#[trigger] fills[t2]).maker_id
}

/// `l2` is `l1` after some head orders were consumed: same price, the
/// survivors a suffix of the queue, the first of them possibly shrunk in
/// volume but never in identity.
pub open spec fn level_reduced(l2: LevelModel, l1: LevelModel) -> bool {
    &&& l2.price == l1.price
    &&& l2.queue.len() <= l1.queue.len()
    &&& forall|k: int|
        0 <= k < l2.queue.len() ==> {
            let n = l1.queue.len() - l2.queue.len();
            &&& (#[trigger] l2.queue[k]).id == l1.queue[n + k].id
            &&& l2.queue[k].remaining_volume <= l1.queue[n + k].remaining_volume
            &&& (k > 0 ==> l2.queue[k] == l1.queue[n + k])
        }
}

/// `b2` is `b1` after a sweep from the best end: levels were consumed from
/// that end only, every surviving level but the hot one is untouched, and
/// the hot one is reduced.
pub open spec fn book_reduced(b2: BookModel, b1: BookModel, swept: OrderSide) -> bool {
    &&& b2.len() <= b1.len()
    &&& forall|j: int|
        0 <= j < b2.len() ==> {
            let n = if swept is Ask {
                b1.len() - b2.len()
            } else {
                0
            };
            &&& level_reduced(#[trigger] b2[j], b1[n + j])
            &&& ((if swept is Ask {
                j > 0
            } else {
                j < b2.len() - 1
            }) ==> b2[j] == b1[n + j])
        }
}

/// What one queue sweep does, position by position: the survivors are a
/// suffix of the queue (the first possibly shrunk, same id), volume and
/// ceiling fall in step, and the fills hit the queued orders head-first.
pub proof fn lemma_sweep_queue_shape(q: Seq<OrderbookOrder>, v: OrderVolume, cap: OrderVolume, p: OrderPrice)
    requires
        cap <= v,
        forall|k: int| 0 <= k < q.len() ==> (#[trigger] q[k]).remaining_volume > 0,
    ensures
        ({
            let s = sweep_queue(q, v, cap, p);
            let n = q.len() - s.queue.len();
            &&& s.queue.len() <= q.len()
            &&& s.taker_left <= v
            &&& s.cap_left <= cap
            &&& s.cap_left <= s.taker_left
            &&& v - s.taker_left == cap - s.cap_left
            &&& s.queue.len() > 0 ==> s.cap_left == 0
            &&& forall|k: int|
                0 <= k < s.queue.len() ==> (#[trigger] s.queue[k]).id == q[n + k].id
                    && s.queue[k].remaining_volume > 0 && s.queue[k].remaining_volume <= q[n
                    + k].remaining_volume && (k > 0 ==> s.queue[k] == q[n + k])
            &&& s.fills.len() <= q.len()
            &&& forall|t: int|
                0 <= t < s.fills.len() ==> (#[trigger] s.fills[t]).maker_id == q[t].id
                    && s.fills[t].price == p && s.fills[t].maker_before == q[t].remaining_volume
        }),
    decreases q.len(),
{
    let s = sweep_queue(q, v, cap, p);
    if q.len() == 0 || cap == 0 {
    } else {
        let m = q[0];
        if m.remaining_volume >= cap {
        } else {
            let amt = m.remaining_volume;
            lemma_sweep_queue_shape(q.drop_first(), (v - amt) as u64, (cap - amt) as u64, p);
            let rest = sweep_queue(q.drop_first(), (v - amt) as u64, (cap - amt) as u64, p);
            assert forall|k: int|
                0 <= k < s.queue.len() implies (#[trigger] s.queue[k]).id == q[q.len()
                - s.queue.len() + k].id && s.queue[k].remaining_volume > 0
                && s.queue[k].remaining_volume <= q[q.len() - s.queue.len() + k].remaining_volume
                && (k > 0 ==> s.queue[k] == q[q.len() - s.queue.len() + k]) by {
                let n = q.len() - s.queue.len();
                assert(q.drop_first()[n - 1 + k] == q[n + k]);
            }
            assert forall|t: int|
                0 <= t < s.fills.len() implies (#[trigger] s.fills[t]).maker_id == q[t].id
                && s.fills[t].price == p && s.fills[t].maker_before == q[t].remaining_volume by {
                if t > 0 {
                    assert(s.fills[t] == rest.fills[t - 1]);
                    assert(q.drop_first()[t - 1] == q[t]);
                }
            }
        }
    }
}

/// What a book sweep does: the surviving book is the swept one reduced
/// from its best end and still well formed, ids only disappear, and the
/// fills hit pairwise distinct resting orders of the pre-sweep book.
#[verifier::rlimit(60)]
pub proof fn lemma_sweep_book_wf(
    b: BookModel,
    swept: OrderSide,
    bound: Option<OrderPrice>,
    v: OrderVolume,
    quote: Option<OrderQuote>,
)
    requires
        book_wf(b),
        swept is Ask || swept is Bid,
    ensures
        ({
            let s = sweep_book(b, swept, bound, v, quote);
            &&& book_wf(s.book)
            &&& book_reduced(s.book, b, swept)
            &&& s.taker_left <= v
            &&& forall|id: OrderId|
                #[trigger] book_has_id(s.book, id) ==> book_has_id(b, id)
            &&& forall|t: int|
                0 <= t < s.fills.len() ==> book_has_id(b, (#[trigger] s.fills[t]).maker_id)
            &&& fill_makers_distinct(s.fills)
        }),
    decreases b.len(),
{
    let s = sweep_book(b, swept, bound, v, quote);
    if b.len() == 0 || v == 0 || !crossable(swept, b[best_idx(b, swept)].price, bound)
        || level_cap(v, quote, b[best_idx(b, swept)].price) == 0 {
        assert(book_reduced(s.book, b, swept)) by {
            assert forall|j: int| 0 <= j < s.book.len() implies level_reduced(
                #[trigger] s.book[j],
                b[j],
            ) && s.book[j] == b[j] by {}
        }
    } else {
        let i = best_idx(b, swept);
        let lvl = b[i];
        let cap = level_cap(v, quote, lvl.price);
        let qs = sweep_queue(lvl.queue, v, cap, lvl.price);
        lemma_sweep_queue_shape(lvl.queue, v, cap, lvl.price);
        let nq = lvl.queue.len() - qs.queue.len();
        assert forall|t: int|
            0 <= t < qs.fills.len() implies book_has_id(b, (#[trigger] qs.fills[t]).maker_id) by {
            assert(qs.fills[t].maker_id == lvl.queue[t].id);
            assert(queue_has_id(lvl.queue, qs.fills[t].maker_id));
            assert(book_has_id(b, qs.fills[t].maker_id));
        }
        assert(fill_makers_distinct(qs.fills)) by {
            assert forall|t1: int, t2: int| 0 <= t1 < t2 < qs.fills.len() implies (
            #[trigger] qs.fills[t1]).maker_id != (#[trigger] qs.fills[t2]).maker_id by {
                assert(qs.fills[t1].maker_id == lvl.queue[t1].id);
                assert(qs.fills[t2].maker_id == lvl.queue[t2].id);
                assert(b[i].queue[t1].id != b[i].queue[t2].id);
            }
        }
        if qs.queue.len() > 0 {
            let lvl2 = LevelModel { price: lvl.price, queue: qs.queue };
            assert(s.book == b.update(i, lvl2));
            assert(level_reduced(lvl2, lvl));
            assert(book_reduced(s.book, b, swept)) by {
                assert forall|j: int| 0 <= j < s.book.len() && j != i implies #[trigger] s.book[j]
                    == b[j] && level_reduced(s.book[j], b[j]) by {}
            }
            assert(book_wf(s.book)) by {
                assert forall|j: int, k: int, j2: int, l: int|
                    0 <= j < s.book.len() && 0 <= k < s.book[j].queue.len() && 0 <= j2
                    < s.book.len() && 0 <= l < s.book[j2].queue.len() && (j != j2 || k != l) implies (
                #[trigger] s.book[j].queue[k]).id != (#[trigger] s.book[j2].queue[l]).id by {
                    let k1 = if j == i { nq + k } else { k };
                    let l1 = if j2 == i { nq + l } else { l };
                    assert(s.book[j].queue[k].id == b[j].queue[k1].id);
                    assert(s.book[j2].queue[l].id == b[j2].queue[l1].id);
                    assert(b[j].queue[k1].id != b[j2].queue[l1].id);
                }
            }
            assert forall|id: OrderId|
                #[trigger] book_has_id(s.book, id) implies book_has_id(b, id) by {
                let j = choose|j: int|
                    0 <= j < s.book.len() && queue_has_id((#[trigger] s.book[j]).queue, id);
                if j == i {
                    let k = choose|k: int|
                        0 <= k < qs.queue.len() && (#[trigger] qs.queue[k]).id == id;
                    assert(b[i].queue[nq + k].id == id);
                    assert(queue_has_id(b[i].queue, id));
                } else {
                    assert(queue_has_id(b[j].queue, id));
                }
            }
        } else {
            let b1 = b.remove(i);
            lemma_remove_level(b, i);
            lemma_sweep_book_wf(b1, swept, bound, qs.taker_left, quote_after(quote, v - qs.taker_left, lvl.price));
            let rest = sweep_book(b1, swept, bound, qs.taker_left, quote_after(quote, v - qs.taker_left, lvl.price));
            assert(s.book == rest.book && s.fills == qs.fills + rest.fills);
            assert(book_reduced(s.book, b, swept)) by {
                let n1 = if swept is Ask { b1.len() - s.book.len() } else { 0 };
                let n = if swept is Ask { b.len() - s.book.len() } else { 0 };
                assert forall|j: int| 0 <= j < s.book.len() implies level_reduced(
                    #[trigger] s.book[j],
                    b[n + j],
                ) && ((if swept is Ask { j > 0 } else { j < s.book.len() - 1 }) ==> s.book[j]
                    == b[n + j]) by {
                    assert(level_reduced(s.book[j], b1[n1 + j]));
                    if swept is Ask {
                        assert(b1[n1 + j] == b[n + j]);
                    } else {
                        assert(b1[n1 + j] == b[n + j]);
                    }
                }
            }
            assert forall|t: int|
                0 <= t < s.fills.len() implies book_has_id(b, (#[trigger] s.fills[t]).maker_id) by {
                if t < qs.fills.len() {
                    assert(s.fills[t] == qs.fills[t]);
                } else {
                    assert(s.fills[t] == rest.fills[t - qs.fills.len()]);
                    assert(book_has_id(b1, s.fills[t].maker_id));
                }
            }
            assert(fill_makers_distinct(s.fills)) by {
                assert forall|t1: int, t2: int| 0 <= t1 < t2 < s.fills.len() implies (
                #[trigger] s.fills[t1]).maker_id != (#[trigger] s.fills[t2]).maker_id by {
                    if t2 < qs.fills.len() {
                        assert(s.fills[t1] == qs.fills[t1] && s.fills[t2] == qs.fills[t2]);
                    } else if t1 >= qs.fills.len() {
                        assert(s.fills[t1] == rest.fills[t1 - qs.fills.len()]);
                        assert(s.fills[t2] == rest.fills[t2 - qs.fills.len()]);
                    } else {
                        assert(s.fills[t1] == qs.fills[t1]);
                        assert(s.fills[t2] == rest.fills[t2 - qs.fills.len()]);
                        assert(qs.fills[t1].maker_id == lvl.queue[t1].id);
                        assert(queue_has_id(b[i].queue, qs.fills[t1].maker_id));
                        assert(book_has_id(b1, rest.fills[t2 - qs.fills.len()].maker_id));
                        assert(!book_has_id(b1, qs.fills[t1].maker_id));
                    }
                }
            }
        }
    }
}

/// Every fill of one queue sweep is balanced: what the taker's volume
/// loses is exactly what the maker's loses, and when the level ceiling is
/// the taker's whole remaining volume, each transfer is the smaller of
/// the two pre-trade volumes.
pub proof fn lemma_sweep_queue_balanced(
    q: Seq<OrderbookOrder>,
    v: OrderVolume,
    cap: OrderVolume,
    p: OrderPrice,
)
    requires
        cap <= v,
        forall|k: int| 0 <= k < q.len() ==> (#[trigger] q[k]).remaining_volume > 0,
    ensures
        ({
            let s = sweep_queue(q, v, cap, p);
            &&& forall|t: int|
                0 <= t < s.fills.len() ==> {
                    let tb = taker_before(s.fills, t, v);
                    let f = #[trigger] s.fills[t];
                    &&& f.taker_after <= tb
                    &&& f.maker_after <= f.maker_before
                    &&& tb - f.taker_after == f.maker_before - f.maker_after
                    &&& tb - f.taker_after > 0
                    &&& (cap == v ==> tb - f.taker_after == (if tb <= f.maker_before {
                        tb as int
                    } else {
                        f.maker_before as int
                    }))
                }
            &&& s.fills.len() > 0 ==> s.fills[s.fills.len() - 1].taker_after == s.taker_left
            &&& s.fills.len() == 0 ==> s.taker_left == v
        }),
    decreases q.len(),
{
    let s = sweep_queue(q, v, cap, p);
    if q.len() == 0 || cap == 0 {
    } else {
        let m = q[0];
        if m.remaining_volume >= cap {
        } else {
            let amt = m.remaining_volume;
            lemma_sweep_queue_balanced(q.drop_first(), (v - amt) as u64, (cap - amt) as u64, p);
            let rest = sweep_queue(q.drop_first(), (v - amt) as u64, (cap - amt) as u64, p);
            assert forall|t: int|
                0 <= t < s.fills.len() implies {
                    let tb = taker_before(s.fills, t, v);
                    let f = #[trigger] s.fills[t];
                    &&& f.taker_after <= tb
                    &&& f.maker_after <= f.maker_before
                    &&& tb - f.taker_after == f.maker_before - f.maker_after
                    &&& tb - f.taker_after > 0
                    &&& (cap == v ==> tb - f.taker_after == (if tb <= f.maker_before {
                        tb as int
                    } else {
                        f.maker_before as int
                    }))
                } by {
                if t > 0 {
                    assert(s.fills[t] == rest.fills[t - 1]);
                    assert(taker_before(s.fills, t, v) == taker_before(
                        rest.fills,
                        t - 1,
                        (v - amt) as u64,
                    ));
                }
            }
        }
    }
}

/// Every fill of a book sweep is balanced, and when no quote budget caps
/// the levels, each transfer is the smaller of the two pre-trade volumes.
pub proof fn lemma_sweep_book_balanced(
    b: BookModel,
    swept: OrderSide,
    bound: Option<OrderPrice>,
    v: OrderVolume,
    quote: Option<OrderQuote>,
)
    requires
        book_wf(b),
        swept is Ask || swept is Bid,
    ensures
        ({
            let s = sweep_book(b, swept, bound, v, quote);
            &&& forall|t: int|
                0 <= t < s.fills.len() ==> {
                    let tb = taker_before(s.fills, t, v);
                    let f = #[trigger] s.fills[t];
                    &&& f.taker_after <= tb
                    &&& f.maker_after <= f.maker_before
                    &&& tb - f.taker_after == f.maker_before - f.maker_after
                    &&& tb - f.taker_after > 0
                    &&& (quote is None ==> tb - f.taker_after == (if tb <= f.maker_before {
                        tb as int
                    } else {
                        f.maker_before as int
                    }))
                }
            &&& s.fills.len() > 0 ==> s.fills[s.fills.len() - 1].taker_after == s.taker_left
            &&& s.fills.len() == 0 ==> s.taker_left == v
        }),
    decreases b.len(),
{
    let s = sweep_book(b, swept, bound, v, quote);
    if b.len() == 0 || v == 0 || !crossable(swept, b[best_idx(b, swept)].price, bound)
        || level_cap(v, quote, b[best_idx(b, swept)].price) == 0 {
    } else {
        let i = best_idx(b, swept);
        let lvl = b[i];
        let cap = level_cap(v, quote, lvl.price);
        assert forall|k: int| 0 <= k < lvl.queue.len() implies (
        #[trigger] lvl.queue[k]).remaining_volume > 0 by {
            assert(b[i].queue[k] == lvl.queue[k]);
        }
        lemma_sweep_queue_balanced(lvl.queue, v, cap, lvl.price);
        let qs = sweep_queue(lvl.queue, v, cap, lvl.price);
        if qs.queue.len() > 0 {
        } else {
            let quote2 = quote_after(quote, v - qs.taker_left, lvl.price);
            lemma_remove_level(b, i);
            lemma_sweep_book_balanced(b.remove(i), swept, bound, qs.taker_left, quote2);
            let rest = sweep_book(b.remove(i), swept, bound, qs.taker_left, quote2);
            assert(quote is None ==> quote2 is None);
            assert forall|t: int|
                0 <= t < s.fills.len() implies {
                    let tb = taker_before(s.fills, t, v);
                    let f = #[trigger] s.fills[t];
                    &&& f.taker_after <= tb
                    &&& f.maker_after <= f.maker_before
                    &&& tb - f.taker_after == f.maker_before - f.maker_after
                    &&& tb - f.taker_after > 0
                    &&& (quote is None ==> tb - f.taker_after == (if tb <= f.maker_before {
                        tb as int
                    } else {
                        f.maker_before as int
                    }))
                } by {
                let nq = qs.fills.len() as int;
                if t < nq {
                    assert(s.fills[t] == qs.fills[t]);
                    if t > 0 {
                        assert(s.fills[t - 1] == qs.fills[t - 1]);
                    }
                    assert(taker_before(s.fills, t, v) == taker_before(qs.fills, t, v));
                } else {
                    assert(s.fills[t] == rest.fills[t - nq]);
                    if t == nq {
                        if nq == 0 {
                            assert(taker_before(s.fills, t, v) == v);
                            assert(qs.taker_left == v);
                        } else {
                            assert(s.fills[t - 1] == qs.fills[nq - 1]);
                            assert(qs.fills[nq - 1].taker_after == qs.taker_left);
                        }
                        assert(taker_before(s.fills, t, v) == taker_before(
                            rest.fills,
                            0,
                            qs.taker_left,
                        ));
                    } else {
                        assert(s.fills[t - 1] == rest.fills[t - 1 - nq]);
                        assert(taker_before(s.fills, t, v) == taker_before(
                            rest.fills,
                            t - nq,
                            qs.taker_left,
                        ));
                    }
                }
            }
            assert(s.fills.len() > 0 ==> s.fills[s.fills.len() - 1].taker_after
                == s.taker_left) by {
                if s.fills.len() > 0 {
                    if rest.fills.len() > 0 {
                        assert(s.fills[s.fills.len() - 1] == rest.fills[rest.fills.len() - 1]);
                    } else {
                        assert(s.taker_left == rest.taker_left);
                        assert(rest.taker_left == qs.taker_left);
                        assert(s.fills[s.fills.len() - 1] == qs.fills[qs.fills.len() - 1]);
                    }
                }
            }
        }
    }
}

/// When a limit sweep (one without a quote budget) leaves the taker with
/// volume, whatever book is left starts with a level the limit price
/// cannot cross.
pub proof fn lemma_sweep_book_uncrossable(
    b: BookModel,
    swept: OrderSide,
    bound: Option<OrderPrice>,
    v: OrderVolume,
)
    requires
        book_wf(b),
        swept is Ask || swept is Bid,
    ensures
        ({
            let s = sweep_book(b, swept, bound, v, Option::None);
            s.taker_left > 0 && s.book.len() > 0 ==> !crossable(
                swept,
                s.book[best_idx(s.book, swept)].price,
                bound,
            )
        }),
    decreases b.len(),
{
    let s = sweep_book(b, swept, bound, v, Option::None);
    if b.len() == 0 || v == 0 {
    } else {
        let i = best_idx(b, swept);
        let lvl = b[i];
        if !crossable(swept, lvl.price, bound) {
        } else {
            let qs = sweep_queue(lvl.queue, v, v, lvl.price);
            lemma_sweep_queue_shape(lvl.queue, v, v, lvl.price);
            if qs.queue.len() > 0 {
                assert(qs.cap_left == 0);
                assert(s.taker_left == 0);
            } else {
                lemma_remove_level(b, i);
                lemma_sweep_book_uncrossable(b.remove(i), swept, bound, qs.taker_left);
            }
        }
    }
}

} // verus!
