//! What a message makes the engine emit and how it leaves the two books:
//! the specification that `Orderbooks::execute_order` is proved against.

use vstd::prelude::*;

use crate::model::BookModel;
use crate::model::book_has_id;
use crate::model::book_insert;
use crate::model::book_remove;
use crate::model::book_wf;
use crate::model::lemma_book_insert_wf;
use crate::model::lemma_book_remove_wf;
use crate::model::order_count;
use crate::model::removed_order;
use crate::orders::OrderEvent;
use crate::orders::OrderEventType;
use crate::orders::OrderId;
use crate::orders::OrderMessage;
use crate::orders::OrderSide;
use crate::orders::OrderType;
use crate::orders::OrderVolume;
use crate::orders::UTCNanoSeconds;
use crate::orders::OrderbookOrder;
use crate::sweep::BookSweep;
use crate::sweep::Fill;
use crate::sweep::best_idx;
use crate::sweep::crossable;
use crate::sweep::lemma_sweep_book_uncrossable;
use crate::sweep::lemma_sweep_book_wf;
use crate::sweep::level_reduced;
use crate::sweep::sweep_book;

verus! {

/// Both side books are well formed and no id rests on both sides.
pub open spec fn books_wf(bids: BookModel, asks: BookModel) -> bool {
    &&& book_wf(bids)
    &&& book_wf(asks)
    &&& forall|id: OrderId| #[trigger] book_has_id(bids, id) ==> !book_has_id(asks, id)
}

/// The books do not cross: when both sides rest liquidity, the best bid
/// is strictly below the best ask.
pub open spec fn books_uncrossed(bids: BookModel, asks: BookModel) -> bool {
    bids.len() > 0 && asks.len() > 0 ==> bids[bids.len() - 1].price < asks[0].price
}

/// A `NoMatch` event: the message touched no liquidity.
pub open spec fn no_match_event(ts: UTCNanoSeconds, rv: OrderVolume) -> OrderEvent {
    OrderEvent {
        timestamp: ts,
        kind: OrderEventType::NoMatch,
        remaining_volume: Option::Some(rv),
        traded_price: Option::None,
        crossed_id: Option::None,
    }
}

/// An `Open` event: a limit order rested with this remaining volume.
pub open spec fn open_event(ts: UTCNanoSeconds, rv: OrderVolume) -> OrderEvent {
    OrderEvent {
        timestamp: ts,
        kind: OrderEventType::Open,
        remaining_volume: Option::Some(rv),
        traded_price: Option::None,
        crossed_id: Option::None,
    }
}

/// A `Closed` event carrying a remaining-volume snapshot.
pub open spec fn closed_event(ts: UTCNanoSeconds, rv: OrderVolume) -> OrderEvent {
    OrderEvent {
        timestamp: ts,
        kind: OrderEventType::Closed,
        remaining_volume: Option::Some(rv),
        traded_price: Option::None,
        crossed_id: Option::None,
    }
}

/// The `Cancelled` event emitted for a resting order taken off the book.
pub open spec fn cancelled_event(ts: UTCNanoSeconds, removed: crate::orders::OrderbookOrder) -> OrderEvent {
    OrderEvent {
        timestamp: ts,
        kind: OrderEventType::Cancelled,
        remaining_volume: Option::Some(removed.remaining_volume),
        traded_price: Option::None,
        crossed_id: Option::Some(removed.id),
    }
}

/// The `Closed` acknowledgement emitted for the cancel message itself.
pub open spec fn cancel_done_event(ts: UTCNanoSeconds, msg_id: OrderId) -> OrderEvent {
    OrderEvent {
        timestamp: ts,
        kind: OrderEventType::Closed,
        remaining_volume: Option::None,
        traded_price: Option::None,
        crossed_id: Option::Some(msg_id),
    }
}

/// The `HasMatch` events of the incoming order, one per fill, each with
/// the incoming's post-trade remaining volume and the maker it crossed.
pub open spec fn taker_fill_events(fills: Seq<Fill>, ts: UTCNanoSeconds) -> Seq<OrderEvent> {
    Seq::new(
        fills.len(),
        |t: int| OrderEvent {
            timestamp: ts,
            kind: OrderEventType::HasMatch,
            remaining_volume: Option::Some(fills[t].taker_after),
            traded_price: Option::Some(fills[t].price),
            crossed_id: Option::Some(fills[t].maker_id),
        },
    )
}

/// The events of one maker hit by a fill: its `HasMatch`, then `Closed`
/// once the fill exhausted it.
pub open spec fn maker_events(f: Fill, taker_id: OrderId, ts: UTCNanoSeconds) -> Seq<OrderEvent> {
    let hm = OrderEvent {
        timestamp: ts,
        kind: OrderEventType::HasMatch,
        remaining_volume: Option::Some(f.maker_after),
        traded_price: Option::Some(f.price),
        crossed_id: Option::Some(taker_id),
    };
    if f.maker_after == 0 {
        seq![hm, closed_event(ts, 0)]
    } else {
        seq![hm]
    }
}

/// One event-map entry per maker, in the order the fills happened.
pub open spec fn maker_entries(fills: Seq<Fill>, taker_id: OrderId, ts: UTCNanoSeconds) -> Seq<
    (OrderId, Seq<OrderEvent>),
> {
    Seq::new(fills.len(), |t: int| (fills[t].maker_id, maker_events(fills[t], taker_id, ts)))
}

/// The incoming limit order's own event sequence: its fills, `NoMatch`
/// when nothing traded, then `Open` with the residual or `Closed` at zero.
pub open spec fn taker_seq_limit(
    fills: Seq<Fill>,
    v0: OrderVolume,
    v_left: OrderVolume,
    ts: UTCNanoSeconds,
) -> Seq<OrderEvent> {
    let base = taker_fill_events(fills, ts);
    let base2 = if v_left == v0 {
        base.push(no_match_event(ts, v_left))
    } else {
        base
    };
    if v_left > 0 {
        base2.push(open_event(ts, v_left))
    } else {
        base2.push(closed_event(ts, 0))
    }
}

/// The incoming market order's own event sequence: its fills, `NoMatch`
/// when nothing traded, then `Closed` with the residual volume.
pub open spec fn taker_seq_market(
    fills: Seq<Fill>,
    v0: OrderVolume,
    v_left: OrderVolume,
    ts: UTCNanoSeconds,
) -> Seq<OrderEvent> {
    let base = taker_fill_events(fills, ts);
    let base2 = if v_left == v0 {
        base.push(no_match_event(ts, v_left))
    } else {
        base
    };
    base2.push(closed_event(ts, v_left))
}

/// The quote budget a buy-side market order brings, zero when absent.
pub open spec fn quote_or_zero(m: OrderMessage) -> OrderVolume {
    match m.max_quote {
        Option::Some(q) => q,
        Option::None => 0,
    }
}

/// The sweep a message performs against the opposite book.
pub open spec fn message_sweep(bids: BookModel, asks: BookModel, m: OrderMessage) -> BookSweep {
    if m.kind is Market {
        if m.side is Ask {
            sweep_book(bids, OrderSide::Bid, Option::None, m.volume.unwrap(), Option::None)
        } else {
            sweep_book(
                asks,
                OrderSide::Ask,
                Option::None,
                m.volume.unwrap(),
                Option::Some(quote_or_zero(m)),
            )
        }
    } else {
        // limit
        if m.side is Ask {
            sweep_book(bids, OrderSide::Bid, Option::Some(m.price.unwrap()), m.volume.unwrap(), Option::None)
        } else {
            sweep_book(asks, OrderSide::Ask, Option::Some(m.price.unwrap()), m.volume.unwrap(), Option::None)
        }
    }
}

/// A message the engine accepts against the given books. Anything outside
/// this is a caller error the engine refuses.
pub open spec fn msg_valid(bids: BookModel, asks: BookModel, m: OrderMessage) -> bool {
    match m.kind {
        OrderType::Cancel => {
            &&& m.target_id is Some
            &&& (book_has_id(bids, m.target_id.unwrap()) || book_has_id(asks, m.target_id.unwrap()))
        },
        OrderType::Market => {
            &&& m.side is Ask || m.side is Bid
            &&& m.volume is Some
            &&& m.volume.unwrap() > 0
            &&& (m.side is Bid && asks.len() > 0 ==> m.max_quote is Some)
            &&& !book_has_id(bids, m.id)
            &&& !book_has_id(asks, m.id)
        },
        OrderType::Limit => {
            &&& m.side is Ask || m.side is Bid
            &&& m.volume is Some
            &&& m.volume.unwrap() > 0
            &&& m.price is Some
            &&& !book_has_id(bids, m.id)
            &&& !book_has_id(asks, m.id)
            &&& (if m.side is Bid {
                order_count(bids)
            } else {
                order_count(asks)
            }) < usize::MAX
        },
    }
}

/// The two books a message leaves behind.
pub open spec fn execute_books(bids: BookModel, asks: BookModel, m: OrderMessage) -> (
    BookModel,
    BookModel,
) {
    match m.kind {
        OrderType::Cancel => {
            let t = m.target_id.unwrap();
            if book_has_id(bids, t) {
                (book_remove(bids, t), asks)
            } else {
                (bids, book_remove(asks, t))
            }
        },
        OrderType::Market => {
            let s = message_sweep(bids, asks, m);
            if m.side is Ask {
                (s.book, asks)
            } else {
                (bids, s.book)
            }
        },
        OrderType::Limit => {
            let s = message_sweep(bids, asks, m);
            let residual = crate::orders::OrderbookOrder {
                id: m.id,
                remaining_volume: s.taker_left,
            };
            if m.side is Ask {
                if s.taker_left > 0 {
                    (s.book, book_insert(asks, m.price.unwrap(), residual))
                } else {
                    (s.book, asks)
                }
            } else {
                if s.taker_left > 0 {
                    (book_insert(bids, m.price.unwrap(), residual), s.book)
                } else {
                    (bids, s.book)
                }
            }
        },
    }
}

/// The grouped events a message produces, keyed by order id: one entry
/// per touched resting order in fill order, then the incoming message's
/// own sequence last.
pub open spec fn execute_entries(
    bids: BookModel,
    asks: BookModel,
    m: OrderMessage,
    ts: UTCNanoSeconds,
) -> Seq<(OrderId, Seq<OrderEvent>)> {
    match m.kind {
        OrderType::Cancel => {
            let t = m.target_id.unwrap();
            let removed = if book_has_id(bids, t) {
                removed_order(bids, t)
            } else {
                removed_order(asks, t)
            };
            seq![
                (t, seq![cancelled_event(ts, removed)]),
                (m.id, seq![cancel_done_event(ts, m.id)]),
            ]
        },
        OrderType::Market => {
            let s = message_sweep(bids, asks, m);
            maker_entries(s.fills, m.id, ts).push(
                (m.id, taker_seq_market(s.fills, m.volume.unwrap(), s.taker_left, ts)),
            )
        },
        OrderType::Limit => {
            let s = message_sweep(bids, asks, m);
            maker_entries(s.fills, m.id, ts).push(
                (m.id, taker_seq_limit(s.fills, m.volume.unwrap(), s.taker_left, ts)),
            )
        },
    }
}

/// Every message the engine accepts leaves the dual book well formed and
/// uncrossed: no spent or duplicated resting order, no shared id across
/// sides, and the best bid strictly below the best ask.
#[verifier::rlimit(60)]
pub proof fn lemma_execute_books_invariants(bids: BookModel, asks: BookModel, m: OrderMessage)
    requires
        books_wf(bids, asks),
        books_uncrossed(bids, asks),
        msg_valid(bids, asks, m),
    ensures
        books_wf(execute_books(bids, asks, m).0, execute_books(bids, asks, m).1),
        books_uncrossed(execute_books(bids, asks, m).0, execute_books(bids, asks, m).1),
{
    let b2 = execute_books(bids, asks, m).0;
    let a2 = execute_books(bids, asks, m).1;
    match m.kind {
        OrderType::Cancel => {
            let t = m.target_id.unwrap();
            lemma_book_remove_wf(bids, t);
            lemma_book_remove_wf(asks, t);
            assert forall|id: OrderId| #[trigger] book_has_id(b2, id) implies !book_has_id(
                a2,
                id,
            ) by {
                assert(book_has_id(bids, id));
                if book_has_id(a2, id) {
                    assert(book_has_id(asks, id));
                }
            }
            assert(books_uncrossed(b2, a2)) by {
                if b2.len() > 0 && a2.len() > 0 {
                    assert(bids.len() > 0 && asks.len() > 0);
                }
            }
        },
        OrderType::Market => {
            let v = m.volume.unwrap();
            if m.side is Ask {
                lemma_sweep_book_wf(bids, OrderSide::Bid, Option::None, v, Option::None);
                let s = sweep_book(bids, OrderSide::Bid, Option::None, v, Option::None);
                assert forall|id: OrderId| #[trigger] book_has_id(b2, id) implies !book_has_id(
                    a2,
                    id,
                ) by {
                    assert(book_has_id(bids, id));
                }
                assert(books_uncrossed(b2, a2)) by {
                    if b2.len() > 0 && a2.len() > 0 {
                        let j = b2.len() - 1;
                        assert(level_reduced(s.book[j], bids[j]));
                        assert(bids[j].price <= bids[bids.len() - 1].price);
                    }
                }
            } else {
                lemma_sweep_book_wf(
                    asks,
                    OrderSide::Ask,
                    Option::None,
                    v,
                    Option::Some(quote_or_zero(m)),
                );
                let s = sweep_book(
                    asks,
                    OrderSide::Ask,
                    Option::None,
                    v,
                    Option::Some(quote_or_zero(m)),
                );
                assert forall|id: OrderId| #[trigger] book_has_id(b2, id) implies !book_has_id(
                    a2,
                    id,
                ) by {
                    if book_has_id(a2, id) {
                        assert(book_has_id(asks, id));
                    }
                }
                assert(books_uncrossed(b2, a2)) by {
                    if b2.len() > 0 && a2.len() > 0 {
                        let n = asks.len() - s.book.len();
                        assert(level_reduced(s.book[0], asks[n]));
                        assert(asks[0].price <= asks[n].price);
                    }
                }
            }
        },
        OrderType::Limit => {
            let v = m.volume.unwrap();
            let p = m.price.unwrap();
            if m.side is Bid {
                lemma_sweep_book_wf(asks, OrderSide::Ask, Option::Some(p), v, Option::None);
                lemma_sweep_book_uncrossable(asks, OrderSide::Ask, Option::Some(p), v);
                let s = sweep_book(asks, OrderSide::Ask, Option::Some(p), v, Option::None);
                let o = OrderbookOrder { id: m.id, remaining_volume: s.taker_left };
                if s.taker_left > 0 {
                    assert(!book_has_id(bids, m.id));
                    lemma_book_insert_wf(bids, p, o);
                }
                assert forall|id: OrderId| #[trigger] book_has_id(b2, id) implies !book_has_id(
                    a2,
                    id,
                ) by {
                    if book_has_id(a2, id) {
                        assert(book_has_id(asks, id));
                        if s.taker_left > 0 {
                            assert(book_has_id(bids, id) || id == m.id);
                        }
                    }
                }
                assert(books_uncrossed(b2, a2)) by {
                    if b2.len() > 0 && a2.len() > 0 {
                        let n = asks.len() - s.book.len();
                        assert(level_reduced(s.book[0], asks[n]));
                        assert(asks[0].price <= asks[n].price);
                        assert(s.book[0].price >= asks[0].price);
                        if s.taker_left > 0 {
                            assert(!crossable(
                                OrderSide::Ask,
                                s.book[best_idx(s.book, OrderSide::Ask)].price,
                                Option::Some(p),
                            ));
                            assert(s.book[0].price > p);
                            if bids.len() > 0 {
                                assert(bids[bids.len() - 1].price < asks[0].price);
                            }
                        } else {
                            assert(b2[b2.len() - 1].price < asks[0].price);
                        }
                    }
                }
            } else {
                lemma_sweep_book_wf(bids, OrderSide::Bid, Option::Some(p), v, Option::None);
                lemma_sweep_book_uncrossable(bids, OrderSide::Bid, Option::Some(p), v);
                let s = sweep_book(bids, OrderSide::Bid, Option::Some(p), v, Option::None);
                let o = OrderbookOrder { id: m.id, remaining_volume: s.taker_left };
                if s.taker_left > 0 {
                    assert(!book_has_id(asks, m.id));
                    lemma_book_insert_wf(asks, p, o);
                }
                assert forall|id: OrderId| #[trigger] book_has_id(b2, id) implies !book_has_id(
                    a2,
                    id,
                ) by {
                    assert(book_has_id(bids, id));
                    if book_has_id(a2, id) {
                        if s.taker_left > 0 {
                            assert(book_has_id(asks, id) || id == m.id);
                        } else {
                            assert(book_has_id(asks, id));
                        }
                    }
                }
                assert(books_uncrossed(b2, a2)) by {
                    if b2.len() > 0 && a2.len() > 0 {
                        let j = s.book.len() - 1;
                        assert(level_reduced(s.book[j], bids[j]));
                        assert(bids[j].price <= bids[bids.len() - 1].price);
                        assert(s.book[j].price <= bids[bids.len() - 1].price);
                        if s.taker_left > 0 {
                            assert(!crossable(
                                OrderSide::Bid,
                                s.book[best_idx(s.book, OrderSide::Bid)].price,
                                Option::Some(p),
                            ));
                            assert(s.book[j].price < p);
                            if asks.len() > 0 {
                                assert(bids[bids.len() - 1].price < asks[0].price);
                            }
                        } else {
                            assert(b2[b2.len() - 1].price < asks[0].price);
                        }
                    }
                }
            }
        },
    }
}

/// The executable event map matches the specified one entry by entry:
/// same keys in the same order, and each value vector holds exactly the
/// specified event sequence.
pub open spec fn entries_correspond(
    v: Seq<(OrderId, Vec<OrderEvent>)>,
    s: Seq<(OrderId, Seq<OrderEvent>)>,
) -> bool {
    &&& v.len() == s.len()
    &&& forall|i: int|
        0 <= i < v.len() ==> (#[trigger] v[i]).0 == s[i].0 && v[i].1@ == s[i].1
}

} // verus!
