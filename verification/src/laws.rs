//! The engine's laws, each stated and proved over the book model and the
//! specification that `execute_order` is proved against: what holds of
//! every well-formed dual book, and what every accepted message preserves
//! or produces.

use vstd::prelude::*;

use crate::events::books_uncrossed;
use crate::events::books_wf;
use crate::events::execute_books;
use crate::events::lemma_execute_books_invariants;
use crate::events::message_sweep;
use crate::events::msg_valid;
use crate::events::closed_event;
use crate::events::execute_entries;
use crate::events::maker_entries;
use crate::events::maker_events;
use crate::events::taker_fill_events;
use crate::events::taker_seq_market;
use crate::model::BookModel;
use crate::model::LevelModel;
use crate::model::book_has_id;
use crate::model::book_insert;
use crate::model::insert_pos;
use crate::model::lemma_book_insert_wf;
use crate::model::lemma_insert_then_remove;
use crate::orders::OrderEvent;
use crate::orders::OrderEventType;
use crate::orders::OrderId;
use crate::orders::OrderMessage;
use crate::orders::OrderPrice;
use crate::orders::OrderSide;
use crate::orders::OrderbookOrder;
use crate::orders::UTCNanoSeconds;
use crate::sweep::Fill;
use crate::sweep::lemma_sweep_book_balanced;
use crate::sweep::sweep_book;
use crate::sweep::sweep_queue;
use crate::sweep::taker_before;

verus! {

/// The book holds exactly one resting order with this id: one exists,
/// and any two positions holding it coincide.
pub open spec fn rests_exactly_once(b: BookModel, id: OrderId) -> bool {
    &&& book_has_id(b, id)
    &&& forall|i: int, k: int, j: int, l: int|
        0 <= i < b.len() && 0 <= k < b[i].queue.len() && 0 <= j < b.len() && 0 <= l
            < b[j].queue.len() && (#[trigger] b[i].queue[k]).id == id && (
        #[trigger] b[j].queue[l]).id == id ==> i == j && k == l
}

/// Every id resting anywhere in a well-formed dual book rests in exactly
/// one side book, as exactly one resting order.
pub proof fn law_each_id_rests_once(bids: BookModel, asks: BookModel, id: OrderId)
    requires
        books_wf(bids, asks),
        book_has_id(bids, id) || book_has_id(asks, id),
    ensures
        !(book_has_id(bids, id) && book_has_id(asks, id)),
        book_has_id(bids, id) ==> rests_exactly_once(bids, id),
        book_has_id(asks, id) ==> rests_exactly_once(asks, id),
{
}

/// Every resting order in a well-formed dual book still has volume.
pub proof fn law_resting_volumes_positive(bids: BookModel, asks: BookModel)
    requires
        books_wf(bids, asks),
    ensures
        forall|i: int, k: int|
            0 <= i < bids.len() && 0 <= k < bids[i].queue.len() ==> (
            #[trigger] bids[i].queue[k]).remaining_volume > 0,
        forall|i: int, k: int|
            0 <= i < asks.len() && 0 <= k < asks[i].queue.len() ==> (
            #[trigger] asks[i].queue[k]).remaining_volume > 0,
{
}

/// No price level of a well-formed dual book holds an empty FIFO.
pub proof fn law_no_empty_price_level(bids: BookModel, asks: BookModel)
    requires
        books_wf(bids, asks),
    ensures
        forall|i: int| 0 <= i < bids.len() ==> (#[trigger] bids[i]).queue.len() > 0,
        forall|i: int| 0 <= i < asks.len() ==> (#[trigger] asks[i]).queue.len() > 0,
{
}

/// Processing any accepted message keeps the dual book well formed and
/// uncrossed: in particular, whenever both sides rest liquidity after a
/// message, the best bid is strictly below the best ask.
pub proof fn law_books_stay_uncrossed(bids: BookModel, asks: BookModel, m: OrderMessage)
    requires
        books_wf(bids, asks),
        books_uncrossed(bids, asks),
        msg_valid(bids, asks, m),
    ensures
        ({
            let bids2 = execute_books(bids, asks, m).0;
            let asks2 = execute_books(bids, asks, m).1;
            &&& books_wf(bids2, asks2)
            &&& books_uncrossed(bids2, asks2)
            &&& (bids2.len() > 0 && asks2.len() > 0 ==> bids2[bids2.len() - 1].price
                < asks2[0].price)
        }),
{
    lemma_execute_books_invariants(bids, asks, m);
}

/// Every fill of a limit or market message is balanced: the volume the
/// incoming order loses on that fill is exactly the volume the resting
/// counter-party loses. For every sweep that no quote budget caps (every
/// limit, and every sell-side market), that transfer is the smaller of
/// the two pre-trade remaining volumes. A buy-side market's quote budget
/// can cap a transfer below that minimum, so it is exempt from the
/// second clause.
pub proof fn law_fill_volumes_balanced(bids: BookModel, asks: BookModel, m: OrderMessage)
    requires
        books_wf(bids, asks),
        msg_valid(bids, asks, m),
        m.kind is Market || m.kind is Limit,
    ensures
        ({
            let s = message_sweep(bids, asks, m);
            let v0 = m.volume.unwrap();
            forall|t: int|
                0 <= t < s.fills.len() ==> {
                    let tb = taker_before(s.fills, t, v0);
                    let f = #[trigger] s.fills[t];
                    &&& f.taker_after <= tb
                    &&& f.maker_after <= f.maker_before
                    &&& tb - f.taker_after == f.maker_before - f.maker_after
                    &&& tb - f.taker_after > 0
                    &&& (!(m.kind is Market && m.side is Bid) ==> tb - f.taker_after == (if tb
                        <= f.maker_before {
                        tb as int
                    } else {
                        f.maker_before as int
                    }))
                }
        }),
{
    let v0 = m.volume.unwrap();
    if m.kind is Market {
        if m.side is Ask {
            lemma_sweep_book_balanced(bids, OrderSide::Bid, Option::None, v0, Option::None);
        } else {
            lemma_sweep_book_balanced(
                asks,
                OrderSide::Ask,
                Option::None,
                v0,
                Option::Some(crate::events::quote_or_zero(m)),
            );
        }
    } else {
        let p = m.price.unwrap();
        if m.side is Ask {
            lemma_sweep_book_balanced(bids, OrderSide::Bid, Option::Some(p), v0, Option::None);
        } else {
            lemma_sweep_book_balanced(asks, OrderSide::Ask, Option::Some(p), v0, Option::None);
        }
    }
}

/// A limit order that rests without crossing, followed by a cancel of
/// that order, returns both books exactly to their earlier state: same
/// counts, same prices, same queues. The limit must not cross, for a
/// crossing limit consumes opposite liquidity that no cancel restores.
pub proof fn law_limit_then_cancel_restores(
    bids: BookModel,
    asks: BookModel,
    m_limit: OrderMessage,
    m_cancel: OrderMessage,
)
    requires
        books_wf(bids, asks),
        books_uncrossed(bids, asks),
        msg_valid(bids, asks, m_limit),
        m_limit.kind is Limit,
        m_limit.side is Bid ==> asks.len() == 0 || asks[0].price > m_limit.price.unwrap(),
        m_limit.side is Ask ==> bids.len() == 0 || bids[bids.len() - 1].price
            < m_limit.price.unwrap(),
        m_cancel.kind is Cancel,
        m_cancel.target_id == Some(m_limit.id),
    ensures
        ({
            let bids1 = execute_books(bids, asks, m_limit).0;
            let asks1 = execute_books(bids, asks, m_limit).1;
            let bids2 = execute_books(bids1, asks1, m_cancel).0;
            let asks2 = execute_books(bids1, asks1, m_cancel).1;
            bids2 == bids && asks2 == asks
        }),
{
    let v = m_limit.volume.unwrap();
    let p = m_limit.price.unwrap();
    let o = OrderbookOrder { id: m_limit.id, remaining_volume: v };
    if m_limit.side is Bid {
        let s = sweep_book(asks, OrderSide::Ask, Option::Some(p), v, Option::None);
        assert(s.book == asks && s.taker_left == v);
        assert(execute_books(bids, asks, m_limit).0 == book_insert(bids, p, o));
        assert(execute_books(bids, asks, m_limit).1 == asks);
        lemma_book_insert_wf(bids, p, o);
        lemma_insert_then_remove(bids, p, o);
        assert(book_has_id(book_insert(bids, p, o), m_limit.id));
    } else {
        let s = sweep_book(bids, OrderSide::Bid, Option::Some(p), v, Option::None);
        assert(s.book == bids && s.taker_left == v);
        assert(execute_books(bids, asks, m_limit).0 == bids);
        assert(execute_books(bids, asks, m_limit).1 == book_insert(asks, p, o));
        lemma_book_insert_wf(asks, p, o);
        lemma_insert_then_remove(asks, p, o);
        assert(book_has_id(book_insert(asks, p, o), m_limit.id));
        assert(!book_has_id(bids, m_limit.id));
    }
}

/// Two limit bids at one price submitted back to back to an empty book,
/// then a sell market for their combined volume: the two resting orders
/// fill in insertion order — the market's first `HasMatch` crosses the
/// earlier bid — each maker gets one `HasMatch` and one `Closed`, and
/// both books end empty.
#[verifier::rlimit(60)]
pub proof fn law_time_priority_within_level(
    m1: OrderMessage,
    m2: OrderMessage,
    m3: OrderMessage,
    p: OrderPrice,
    ts: UTCNanoSeconds,
)
    requires
        m1.kind is Limit,
        m1.side is Bid,
        m1.price == Some(p),
        m1.volume is Some,
        m1.volume.unwrap() > 0,
        m2.kind is Limit,
        m2.side is Bid,
        m2.price == Some(p),
        m2.volume is Some,
        m2.volume.unwrap() > 0,
        m3.kind is Market,
        m3.side is Ask,
        m3.volume is Some,
        m1.volume.unwrap() + m2.volume.unwrap() <= u64::MAX,
        m3.volume.unwrap() == m1.volume.unwrap() + m2.volume.unwrap(),
        m1.id != m2.id,
        m3.id != m1.id,
        m3.id != m2.id,
    ensures
        ({
            let empty_book = Seq::<LevelModel>::empty();
            let bids1 = execute_books(empty_book, empty_book, m1).0;
            let asks1 = execute_books(empty_book, empty_book, m1).1;
            let bids2 = execute_books(bids1, asks1, m2).0;
            let asks2 = execute_books(bids1, asks1, m2).1;
            let entries = execute_entries(bids2, asks2, m3, ts);
            let v1 = m1.volume.unwrap();
            let v2 = m2.volume.unwrap();
            let maker1_match = (OrderEvent {
                timestamp: ts,
                kind: OrderEventType::HasMatch,
                remaining_volume: Some(0),
                traded_price: Some(p),
                crossed_id: Some(m3.id),
            });
            let maker2_match = maker1_match;
            let taker_match1 = (OrderEvent {
                timestamp: ts,
                kind: OrderEventType::HasMatch,
                remaining_volume: Some(v2),
                traded_price: Some(p),
                crossed_id: Some(m1.id),
            });
            let taker_match2 = (OrderEvent {
                timestamp: ts,
                kind: OrderEventType::HasMatch,
                remaining_volume: Some(0),
                traded_price: Some(p),
                crossed_id: Some(m2.id),
            });
            &&& execute_books(bids2, asks2, m3).0 == empty_book
            &&& execute_books(bids2, asks2, m3).1 == empty_book
            &&& entries.len() == 3
            &&& entries[0].0 == m1.id
            &&& entries[0].1 == seq![maker1_match, closed_event(ts, 0)]
            &&& entries[1].0 == m2.id
            &&& entries[1].1 == seq![maker2_match, closed_event(ts, 0)]
            &&& entries[2].0 == m3.id
            &&& entries[2].1 == seq![taker_match1, taker_match2, closed_event(ts, 0)]
        }),
{
    let empty_book = Seq::<LevelModel>::empty();
    let v1 = m1.volume.unwrap();
    let v2 = m2.volume.unwrap();
    let vsum = m3.volume.unwrap();
    let o1 = OrderbookOrder { id: m1.id, remaining_volume: v1 };
    let o2 = OrderbookOrder { id: m2.id, remaining_volume: v2 };

    // first limit: rests alone at `p`
    let s1 = sweep_book(empty_book, OrderSide::Ask, Option::Some(p), v1, Option::None);
    assert(s1.book == empty_book && s1.taker_left == v1);
    let bids1 = execute_books(empty_book, empty_book, m1).0;
    let asks1 = execute_books(empty_book, empty_book, m1).1;
    assert(bids1 == book_insert(empty_book, p, o1));
    assert(asks1 == empty_book);
    let lvl1 = LevelModel { price: p, queue: seq![o1] };
    assert(insert_pos(empty_book, p) == 0);
    assert(bids1 =~= seq![lvl1]);

    // second limit: joins the tail of the same level
    let s2 = sweep_book(empty_book, OrderSide::Ask, Option::Some(p), v2, Option::None);
    assert(s2.book == empty_book && s2.taker_left == v2);
    let bids2 = execute_books(bids1, asks1, m2).0;
    let asks2 = execute_books(bids1, asks1, m2).1;
    assert(bids2 == book_insert(bids1, p, o2));
    assert(asks2 == empty_book);
    assert(insert_pos(bids1, p) == 0);
    let lvl2 = LevelModel { price: p, queue: seq![o1, o2] };
    assert(seq![o1].push(o2) =~= seq![o1, o2]);
    assert(bids2 =~= seq![lvl2]);

    // the market sweeps the level head first
    let q0 = seq![o1, o2];
    let f1 = Fill {
        maker_id: m1.id,
        price: p,
        maker_before: v1,
        taker_after: v2,
        maker_after: 0,
    };
    let f2 = Fill {
        maker_id: m2.id,
        price: p,
        maker_before: v2,
        taker_after: 0,
        maker_after: 0,
    };
    let qs = sweep_queue(q0, vsum, vsum, p);
    assert(q0.drop_first() =~= seq![o2]);
    let qs_rest = sweep_queue(seq![o2], v2, v2, p);
    assert(qs_rest.queue =~= Seq::<OrderbookOrder>::empty());
    assert(qs_rest.taker_left == 0 && qs_rest.cap_left == 0);
    assert(qs_rest.fills =~= seq![f2]);
    assert(v1 < vsum);
    assert((vsum - v1) as u64 == v2);
    assert(qs.queue =~= Seq::<OrderbookOrder>::empty());
    assert(qs.taker_left == 0);
    assert(qs.fills =~= seq![f1, f2]);

    let s3 = sweep_book(bids2, OrderSide::Bid, Option::None, vsum, Option::None);
    assert(bids2.len() == 1 && vsum > 0);
    assert(bids2[0] == lvl2);
    assert(bids2.remove(0) =~= empty_book);
    let s3_rest = sweep_book(empty_book, OrderSide::Bid, Option::None, 0, Option::None);
    assert(s3_rest.book == empty_book && s3_rest.fills == Seq::<Fill>::empty());
    assert(s3.book == empty_book);
    assert(s3.taker_left == 0);
    assert(s3.fills =~= seq![f1, f2]);
    assert(execute_books(bids2, asks2, m3).0 == empty_book);
    assert(execute_books(bids2, asks2, m3).1 =~= empty_book);

    // and the events name the makers in insertion order
    let entries = execute_entries(bids2, asks2, m3, ts);
    assert(entries == maker_entries(s3.fills, m3.id, ts).push(
        (m3.id, taker_seq_market(s3.fills, vsum, 0, ts)),
    ));
    assert(entries.len() == 3);
    let maker1_match = OrderEvent {
        timestamp: ts,
        kind: OrderEventType::HasMatch,
        remaining_volume: Some(0),
        traded_price: Some(p),
        crossed_id: Some(m3.id),
    };
    assert(entries[0].0 == m1.id);
    assert(entries[0].1 == maker_events(f1, m3.id, ts));
    assert(maker_events(f1, m3.id, ts) =~= seq![maker1_match, closed_event(ts, 0)]);
    assert(entries[1].0 == m2.id);
    assert(maker_events(f2, m3.id, ts) =~= seq![maker1_match, closed_event(ts, 0)]);
    assert(entries[2].0 == m3.id);
    let taker_match1 = OrderEvent {
        timestamp: ts,
        kind: OrderEventType::HasMatch,
        remaining_volume: Some(v2),
        traded_price: Some(p),
        crossed_id: Some(m1.id),
    };
    let taker_match2 = OrderEvent {
        timestamp: ts,
        kind: OrderEventType::HasMatch,
        remaining_volume: Some(0),
        traded_price: Some(p),
        crossed_id: Some(m2.id),
    };
    assert(taker_fill_events(s3.fills, ts) =~= seq![taker_match1, taker_match2]);
    assert(vsum > 0);
    assert(taker_seq_market(s3.fills, vsum, 0, ts) =~= seq![
        taker_match1,
        taker_match2,
        closed_event(ts, 0),
    ]);
}

} // verus!
