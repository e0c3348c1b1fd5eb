//! The dual book and the matcher: bids and asks, and `execute_order`,
//! which crosses an incoming message against the opposite side under
//! strict price-time priority and returns the grouped events.

use vstd::prelude::*;

use crate::book::BookLevel;
use crate::book::Orderbook;
use crate::events::books_uncrossed;
use crate::events::books_wf;
use crate::events::cancel_done_event;
use crate::events::cancelled_event;
use crate::events::entries_correspond;
use crate::events::execute_books;
use crate::events::execute_entries;
use crate::events::maker_entries;
use crate::events::maker_events;
use crate::events::message_sweep;
use crate::events::msg_valid;
use crate::events::quote_or_zero;
use crate::events::taker_fill_events;
use crate::events::taker_seq_limit;
use crate::events::taker_seq_market;
use crate::model::BookModel;
use crate::model::LevelModel;
use crate::model::book_has_id;
use crate::model::book_insert;
use crate::model::book_remove;
use crate::model::book_wf;
use crate::model::lemma_book_insert_wf;
use crate::model::lemma_book_remove_wf;
use crate::model::lemma_remove_level;
use crate::model::order_count;
use crate::model::removed_order;
use crate::orders::OrderEvent;
use crate::orders::OrderEventType;
use crate::orders::OrderId;
use crate::orders::OrderMessage;
use crate::orders::OrderPrice;
use crate::orders::OrderQuote;
use crate::orders::OrderSide;
use crate::orders::OrderType;
use crate::orders::OrderVolume;
use crate::orders::OrderbookOrder;
use crate::orders::UTCNanoSeconds;
use crate::orders::now_timestamp_nanos;
use crate::sweep::Fill;
use crate::sweep::best_idx;
use crate::sweep::crossable;
use crate::sweep::level_cap;
use crate::sweep::lemma_sweep_book_uncrossable;
use crate::sweep::lemma_sweep_book_wf;
use crate::sweep::lemma_sweep_queue_shape;
use crate::sweep::quote_after;
use crate::sweep::sweep_book;
use crate::sweep::sweep_queue;

verus! {

/// The dual book: resting bids and asks for one instrument.
#[derive(Clone, Debug)]
pub struct Orderbooks {
    pub bids: Orderbook,
    pub asks: Orderbook,
}

impl Orderbooks {
    /// Both sides are well formed and share no order id.
    pub open spec fn wf(&self) -> bool {
        books_wf(self.bids@, self.asks@)
    }

    /// The best bid is strictly below the best ask whenever both sides
    /// rest liquidity.
    pub open spec fn uncrossed(&self) -> bool {
        books_uncrossed(self.bids@, self.asks@)
    }

    /// An empty dual book.
    pub fn new() -> (r: Orderbooks)
        ensures
            r.bids@ == Seq::<LevelModel>::empty(),
            r.asks@ == Seq::<LevelModel>::empty(),
            r.wf(),
            r.uncrossed(),
    {
        Orderbooks { bids: Orderbook::new(), asks: Orderbook::new() }
    }

    /// The number of resting bids, of resting asks, and their sum.
    pub fn count(&self) -> (r: (usize, usize, usize))
        requires
            order_count(self.bids@) + order_count(self.asks@) <= usize::MAX,
        ensures
            r.0 == order_count(self.bids@),
            r.1 == order_count(self.asks@),
            r.2 == r.0 + r.1,
    {
        let bids_count = self.bids.count();
        let asks_count = self.asks.count();
        (bids_count, asks_count, bids_count + asks_count)
    }

    /// Remove the resting order with this id from whichever side holds
    /// it; `None` when neither does.
    pub fn remove(&mut self, order_id: OrderId) -> (r: Option<OrderbookOrder>)
        requires
            old(self).wf(),
        ensures
            final(self).wf(),
            old(self).uncrossed() ==> final(self).uncrossed(),
            book_has_id(old(self).bids@, order_id) ==> r == Some(
                removed_order(old(self).bids@, order_id),
            ) && final(self).bids@ == book_remove(old(self).bids@, order_id) && final(self).asks@
                == old(self).asks@,
            !book_has_id(old(self).bids@, order_id) && book_has_id(old(self).asks@, order_id)
                ==> r == Some(removed_order(old(self).asks@, order_id)) && final(self).asks@
                == book_remove(old(self).asks@, order_id) && final(self).bids@ == old(self).bids@,
            !book_has_id(old(self).bids@, order_id) && !book_has_id(old(self).asks@, order_id)
                ==> r is None && final(self).bids@ == old(self).bids@ && final(self).asks@ == old(
                self,
            ).asks@,
            r is Some ==> r.unwrap().id == order_id,
    {
        proof {
            lemma_book_remove_wf(self.bids@, order_id);
            lemma_book_remove_wf(self.asks@, order_id);
        }
        let from_bids = self.bids.remove(order_id);
        match from_bids {
            Some(o) => Some(o),
            None => self.asks.remove(order_id),
        }
    }

    /// Rest an unfilled (remainder of an) order message on its own side.
    /// The message must be a sided limit or market record with a price,
    /// its id fresh to both books, and the volume positive.
    pub fn insert(&mut self, order_message: &OrderMessage, remaining_volume: OrderVolume)
        requires
            old(self).wf(),
            !(order_message.kind is Cancel),
            order_message.side is Bid || order_message.side is Ask,
            order_message.price is Some,
            remaining_volume > 0,
            !book_has_id(old(self).bids@, order_message.id),
            !book_has_id(old(self).asks@, order_message.id),
        ensures
            final(self).wf(),
            ({
                let o = OrderbookOrder { id: order_message.id, remaining_volume };
                if order_message.side is Bid {
                    final(self).bids@ == book_insert(
                        old(self).bids@,
                        order_message.price.unwrap(),
                        o,
                    ) && final(self).asks@ == old(self).asks@
                } else {
                    final(self).asks@ == book_insert(
                        old(self).asks@,
                        order_message.price.unwrap(),
                        o,
                    ) && final(self).bids@ == old(self).bids@
                }
            }),
    {
        let order = OrderbookOrder { id: order_message.id, remaining_volume };
        let price = order_message.price.unwrap();
        if order_message.side == OrderSide::Bid {
            proof {
                lemma_book_insert_wf(self.bids@, price, order);
            }
            self.bids.insert(price, order);
        } else {
            proof {
                lemma_book_insert_wf(self.asks@, price, order);
            }
            self.asks.insert(price, order);
        }
    }
}

impl Default for Orderbook {
    /// An empty side book.
    fn default() -> (r: Orderbook)
        ensures
            r@ == Seq::<LevelModel>::empty(),
    {
        Orderbook::new()
    }
}

impl Default for Orderbooks {
    /// An empty dual book.
    fn default() -> (r: Orderbooks)
        ensures
            r.bids@ == Seq::<LevelModel>::empty(),
            r.asks@ == Seq::<LevelModel>::empty(),
            r.wf(),
            r.uncrossed(),
    {
        Orderbooks::new()
    }
}

/// Trading up to the level ceiling never spends more than the remaining
/// quote budget.
proof fn lemma_affordable(traded: int, qv: OrderQuote, p: OrderPrice, v: OrderVolume)
    requires
        0 <= traded <= level_cap(v, Option::Some(qv), p),
    ensures
        traded * p <= qv,
{
    if p == 0 {
        assert(traded * p == 0) by (nonlinear_arith)
            requires
                p == 0,
        ;
    } else {
        assert(traded <= qv / p);
        vstd::arithmetic::div_mod::lemma_fundamental_div_mod(qv as int, p as int);
        vstd::arithmetic::div_mod::lemma_mod_bound(qv as int, p as int);
        vstd::arithmetic::mul::lemma_mul_inequality(traded, (qv / p) as int, p as int);
        assert((p as int) * ((qv / p) as int) == ((qv / p) as int) * (p as int)) by (nonlinear_arith);
    }
}

/// Sweep one FIFO queue head-first: trade against each resting order in
/// turn until the ceiling is spent or the queue is empty, returning the
/// survivors, the volume and ceiling left, and the fills.
fn sweep_queue_exec(
    q: Vec<OrderbookOrder>,
    v: OrderVolume,
    cap: OrderVolume,
    p: OrderPrice,
) -> (r: (Vec<OrderbookOrder>, OrderVolume, OrderVolume, Vec<Fill>))
    requires
        cap <= v,
        forall|k: int| 0 <= k < q@.len() ==> (#[trigger] q@[k]).remaining_volume > 0,
    ensures
        ({
            let s = sweep_queue(q@, v, cap, p);
            &&& r.0@ == s.queue
            &&& r.1 == s.taker_left
            &&& r.2 == s.cap_left
            &&& r.3@ == s.fills
        }),
{
    let ghost target = sweep_queue(q@, v, cap, p);
    let mut q = q;
    let mut v = v;
    let mut cap = cap;
    let mut fills: Vec<Fill> = Vec::new();
    proof {
        assert(target.fills =~= fills@ + target.fills);
    }
    loop
        invariant
            cap <= v,
            forall|k: int| 0 <= k < q@.len() ==> (#[trigger] q@[k]).remaining_volume > 0,
            ({
                let s = sweep_queue(q@, v, cap, p);
                &&& target.queue == s.queue
                &&& target.taker_left == s.taker_left
                &&& target.cap_left == s.cap_left
                &&& target.fills == fills@ + s.fills
            }),
        ensures
            target.queue == q@,
            target.taker_left == v,
            target.cap_left == cap,
            target.fills == fills@,
        decreases q@.len(),
    {
        if q.len() == 0 || cap == 0 {
            proof {
                assert(target.fills =~= fills@);
            }
            break;
        }
        let ghost q_entry = q@;
        let ghost v_entry = v;
        let ghost cap_entry = cap;
        let ghost fills_entry = fills@;
        let m = q[0];
        if m.remaining_volume >= cap {
            let m2 = OrderbookOrder { id: m.id, remaining_volume: m.remaining_volume - cap };
            let f = Fill {
                maker_id: m.id,
                price: p,
                maker_before: m.remaining_volume,
                taker_after: v - cap,
                maker_after: m2.remaining_volume,
            };
            fills.push(f);
            if m2.remaining_volume == 0 {
                q.remove(0);
                proof {
                    assert(q@ =~= q_entry.drop_first());
                }
            } else {
                q.remove(0);
                q.insert(0, m2);
                proof {
                    assert(q@ =~= q_entry.update(0, m2));
                }
            }
            v = v - cap;
            cap = 0;
            proof {
                let s_entry = sweep_queue(q_entry, v_entry, cap_entry, p);
                assert(s_entry.queue == q@ && s_entry.taker_left == v && s_entry.cap_left == 0);
                assert(s_entry.fills =~= seq![f]);
                assert(fills@ =~= fills_entry + seq![f]);
                assert(target.fills =~= fills@);
            }
            break;
        } else {
            let amt = m.remaining_volume;
            let f = Fill {
                maker_id: m.id,
                price: p,
                maker_before: m.remaining_volume,
                taker_after: v - amt,
                maker_after: 0,
            };
            fills.push(f);
            q.remove(0);
            v = v - amt;
            cap = cap - amt;
            proof {
                assert(q@ =~= q_entry.drop_first());
                let s_entry = sweep_queue(q_entry, v_entry, cap_entry, p);
                let s_cur = sweep_queue(q@, v, cap, p);
                assert(s_entry.queue == s_cur.queue && s_entry.taker_left == s_cur.taker_left
                    && s_entry.cap_left == s_cur.cap_left);
                assert(s_entry.fills == seq![f] + s_cur.fills);
                assert(fills@ =~= fills_entry + seq![f]);
                assert(target.fills =~= fills@ + s_cur.fills) by {
                    assert(target.fills == fills_entry + (seq![f] + s_cur.fills));
                    assert(fills_entry + (seq![f] + s_cur.fills) =~= (fills_entry + seq![f])
                        + s_cur.fills);
                }
            }
        }
    }
    (q, v, cap, fills)
}

/// Sweep a side book best-first under an optional limit-price bound and
/// an optional quote budget, removing exhausted orders and levels as it
/// goes. Returns the volume left, the quote budget left, and the fills.
#[verifier::rlimit(80)]
fn sweep_book_exec(
    book: &mut Orderbook,
    swept: OrderSide,
    bound: Option<OrderPrice>,
    v0: OrderVolume,
    quote0: Option<OrderQuote>,
) -> (r: (OrderVolume, Option<OrderQuote>, Vec<Fill>))
    requires
        book_wf(old(book)@),
        swept is Ask || swept is Bid,
    ensures
        ({
            let s = sweep_book(old(book)@, swept, bound, v0, quote0);
            &&& final(book)@ == s.book
            &&& r.0 == s.taker_left
            &&& r.1 == s.quote_left
            &&& r.2@ == s.fills
        }),
{
    let ghost target = sweep_book(book@, swept, bound, v0, quote0);
    let mut v = v0;
    let mut quote = quote0;
    let mut fills: Vec<Fill> = Vec::new();
    proof {
        assert(target.fills =~= fills@ + target.fills);
    }
    loop
        invariant_except_break
            book_wf(book@),
        invariant
            swept is Ask || swept is Bid,
            ({
                let s = sweep_book(book@, swept, bound, v, quote);
                &&& target.book == s.book
                &&& target.taker_left == s.taker_left
                &&& target.quote_left == s.quote_left
                &&& target.fills == fills@ + s.fills
            }),
        ensures
            target.book == book@,
            target.taker_left == v,
            target.quote_left == quote,
            target.fills == fills@,
        decreases book.orders.len(),
    {
        if book.orders.len() == 0 || v == 0 {
            proof {
                assert(target.fills =~= fills@);
            }
            break;
        }
        let idx: usize = if swept == OrderSide::Ask {
            0
        } else {
            book.orders.len() - 1
        };
        proof {
            assert(idx as int == best_idx(book@, swept));
        }
        let price = book.orders[idx].price;
        proof {
            assert(price == book@[idx as int].price);
        }
        let cross_ok = match bound {
            Option::None => true,
            Option::Some(lim) => if swept == OrderSide::Ask {
                price <= lim
            } else {
                price >= lim
            },
        };
        if !cross_ok {
            proof {
                assert(!crossable(swept, price, bound));
                assert(target.fills =~= fills@);
            }
            break;
        }
        let cap = match quote {
            Option::None => v,
            Option::Some(qv) => if price > 0 && v > qv / price {
                qv / price
            } else {
                v
            },
        };
        proof {
            assert(cap == level_cap(v, quote, price));
            assert(crossable(swept, price, bound));
        }
        if cap == 0 {
            proof {
                assert(target.fills =~= fills@);
            }
            break;
        }
        let ghost b_entry = book@;
        let ghost v_entry = v;
        let ghost quote_entry = quote;
        let ghost fills_entry = fills@;
        let lvl = book.orders.remove(idx);
        proof {
            assert(lvl.price == price);
            assert(lvl.orders@ == b_entry[idx as int].queue);
            assert(book@ =~= b_entry.remove(idx as int));
            assert forall|k: int| 0 <= k < lvl.orders@.len() implies (
            #[trigger] lvl.orders@[k]).remaining_volume > 0 by {
                assert(b_entry[idx as int].queue[k] == lvl.orders@[k]);
            }
            lemma_sweep_queue_shape(b_entry[idx as int].queue, v, cap, price);
        }
        let ghost qs = sweep_queue(b_entry[idx as int].queue, v, cap, price);
        let (q2, v2, _cap2, mut lfills) = sweep_queue_exec(lvl.orders, v, cap, price);
        let traded = v - v2;
        let quote_next = match quote {
            Option::None => Option::None,
            Option::Some(qv) => {
                proof {
                    lemma_affordable(traded as int, qv, price, v);
                }
                Option::Some(qv - traded * price)
            },
        };
        proof {
            assert(quote_next == quote_after(quote_entry, v_entry - qs.taker_left, price));
        }
        quote = quote_next;
        v = v2;
        fills.append(&mut lfills);
        proof {
            assert(fills@ =~= fills_entry + qs.fills);
        }
        if q2.len() > 0 {
            let lvl2 = BookLevel { price, orders: q2 };
            book.orders.insert(idx, lvl2);
            proof {
                let lvl2m = LevelModel { price, queue: qs.queue };
                assert(book@ =~= b_entry.update(idx as int, lvl2m));
                let s_entry = sweep_book(b_entry, swept, bound, v_entry, quote_entry);
                assert(s_entry.book == book@ && s_entry.taker_left == v && s_entry.quote_left
                    == quote);
                assert(s_entry.fills == qs.fills);
                assert(target.fills =~= fills@);
                // the sweep is complete: the hot level survived, so either
                // the taker is out of volume or the budget can no longer
                // afford this level, let alone a costlier one.
                let s_cur = sweep_book(book@, swept, bound, v, quote);
                if v > 0 {
                    assert(qs.cap_left == 0);
                    assert(v_entry - v == cap - 0);
                    assert(best_idx(book@, swept) == idx as int);
                    assert(book@[idx as int].price == price);
                    match quote_entry {
                        Option::None => {
                            assert(cap == v_entry);
                            assert(v == 0);
                        },
                        Option::Some(qv) => {
                            if cap == v_entry {
                                assert(v == 0);
                            } else {
                                assert(price > 0 && v_entry > qv / price);
                                assert(cap == qv / price);
                                vstd::arithmetic::div_mod::lemma_fundamental_div_mod(
                                    qv as int,
                                    price as int,
                                );
                                vstd::arithmetic::div_mod::lemma_mod_bound(qv as int, price as int);
                                let qv2 = quote.unwrap();
                                assert((qv2 as int) == (qv as int) - (cap as int) * (price as int));
                                assert((cap as int) * (price as int) == (price as int) * (
                                cap as int)) by (nonlinear_arith);
                                assert(qv2 as int == (qv as int) % (price as int));
                                assert(qv2 < price);
                                vstd::arithmetic::div_mod::lemma_basic_div(
                                    qv2 as int,
                                    price as int,
                                );
                                assert(qv2 / price == 0);
                                assert(level_cap(v, quote, price) == 0);
                            }
                        },
                    }
                    assert(s_cur.book == book@ && s_cur.taker_left == v && s_cur.quote_left
                        == quote && s_cur.fills == Seq::<Fill>::empty());
                }
                assert(target.book == book@ && target.taker_left == v && target.quote_left
                    == quote);
            }
            break;
        } else {
            proof {
                let s_entry = sweep_book(b_entry, swept, bound, v_entry, quote_entry);
                let s_cur = sweep_book(book@, swept, bound, v, quote);
                assert(s_entry.book == s_cur.book && s_entry.taker_left == s_cur.taker_left
                    && s_entry.quote_left == s_cur.quote_left);
                assert(s_entry.fills == qs.fills + s_cur.fills);
                assert(target.fills =~= fills@ + s_cur.fills) by {
                    assert(target.fills == fills_entry + (qs.fills + s_cur.fills));
                    assert(fills_entry + (qs.fills + s_cur.fills) =~= (fills_entry + qs.fills)
                        + s_cur.fills);
                }
                lemma_remove_level(b_entry, idx as int);
            }
        }
    }
    (v, quote, fills)
}

/// The incoming order's `HasMatch` events, one per fill.
fn build_taker_fill_events(fills: &Vec<Fill>, ts: UTCNanoSeconds) -> (r: Vec<OrderEvent>)
    ensures
        r@ == taker_fill_events(fills@, ts),
{
    let mut r: Vec<OrderEvent> = Vec::new();
    let mut t: usize = 0;
    while t < fills.len()
        invariant
            0 <= t <= fills@.len(),
            r@.len() == t,
            forall|j: int| 0 <= j < t ==> r@[j] == taker_fill_events(fills@, ts)[j],
        decreases fills@.len() - t,
    {
        let f = fills[t];
        r.push(
            OrderEvent {
                timestamp: ts,
                kind: OrderEventType::HasMatch,
                remaining_volume: Some(f.taker_after),
                traded_price: Some(f.price),
                crossed_id: Some(f.maker_id),
            },
        );
        t = t + 1;
    }
    proof {
        assert(r@ =~= taker_fill_events(fills@, ts));
    }
    r
}

/// One event-map entry per maker hit by a fill, in fill order.
fn build_maker_entries(fills: &Vec<Fill>, taker_id: OrderId, ts: UTCNanoSeconds) -> (r: Vec<
    (OrderId, Vec<OrderEvent>),
>)
    ensures
        entries_correspond(r@, maker_entries(fills@, taker_id, ts)),
{
    let mut r: Vec<(OrderId, Vec<OrderEvent>)> = Vec::new();
    let mut t: usize = 0;
    while t < fills.len()
        invariant
            0 <= t <= fills@.len(),
            r@.len() == t,
            forall|j: int|
                0 <= j < t ==> (#[trigger] r@[j]).0 == maker_entries(fills@, taker_id, ts)[j].0
                    && r@[j].1@ == maker_entries(fills@, taker_id, ts)[j].1,
        decreases fills@.len() - t,
    {
        let f = fills[t];
        let mut es: Vec<OrderEvent> = Vec::new();
        es.push(
            OrderEvent {
                timestamp: ts,
                kind: OrderEventType::HasMatch,
                remaining_volume: Some(f.maker_after),
                traded_price: Some(f.price),
                crossed_id: Some(taker_id),
            },
        );
        if f.maker_after == 0 {
            es.push(
                OrderEvent {
                    timestamp: ts,
                    kind: OrderEventType::Closed,
                    remaining_volume: Some(0),
                    traded_price: None,
                    crossed_id: None,
                },
            );
        }
        proof {
            assert(es@ =~= maker_events(f, taker_id, ts));
        }
        r.push((f.maker_id, es));
        t = t + 1;
    }
    r
}

impl Orderbooks {
    /// Process a cancel message at the given timestamp.
    fn execute_cancel(&mut self, m: &OrderMessage, ts: UTCNanoSeconds) -> (r: Vec<
        (OrderId, Vec<OrderEvent>),
    >)
        requires
            old(self).wf(),
            old(self).uncrossed(),
            msg_valid(old(self).bids@, old(self).asks@, *m),
            m.kind is Cancel,
        ensures
            final(self).wf(),
            final(self).uncrossed(),
            final(self).bids@ == execute_books(old(self).bids@, old(self).asks@, *m).0,
            final(self).asks@ == execute_books(old(self).bids@, old(self).asks@, *m).1,
            entries_correspond(r@, execute_entries(old(self).bids@, old(self).asks@, *m, ts)),
    {
        let target = m.target_id.unwrap();
        let removed_opt = self.remove(target);
        let removed = removed_opt.unwrap();
        let mut ev_target: Vec<OrderEvent> = Vec::new();
        ev_target.push(
            OrderEvent {
                timestamp: ts,
                kind: OrderEventType::Cancelled,
                remaining_volume: Some(removed.remaining_volume),
                traded_price: None,
                crossed_id: Some(removed.id),
            },
        );
        let mut ev_msg: Vec<OrderEvent> = Vec::new();
        ev_msg.push(
            OrderEvent {
                timestamp: ts,
                kind: OrderEventType::Closed,
                remaining_volume: None,
                traded_price: None,
                crossed_id: Some(m.id),
            },
        );
        let mut entries: Vec<(OrderId, Vec<OrderEvent>)> = Vec::new();
        entries.push((target, ev_target));
        entries.push((m.id, ev_msg));
        proof {
            let removed_spec = if book_has_id(old(self).bids@, target) {
                removed_order(old(self).bids@, target)
            } else {
                removed_order(old(self).asks@, target)
            };
            assert(removed == removed_spec);
            assert(ev_target@ =~= seq![cancelled_event(ts, removed_spec)]);
            assert(ev_msg@ =~= seq![cancel_done_event(ts, m.id)]);
            let se = execute_entries(old(self).bids@, old(self).asks@, *m, ts);
            assert(entries@.len() == se.len());
            assert(entries@[0].0 == se[0].0 && entries@[0].1@ == se[0].1);
            assert(entries@[1].0 == se[1].0 && entries@[1].1@ == se[1].1);
        }
        entries
    }

    /// Process a market order at the given timestamp: sweep the opposite
    /// book best-first, bounded by the volume and, for a buy, the quote
    /// budget; never rest anything.
    fn execute_market(&mut self, m: &OrderMessage, ts: UTCNanoSeconds) -> (r: Vec<
        (OrderId, Vec<OrderEvent>),
    >)
        requires
            old(self).wf(),
            old(self).uncrossed(),
            msg_valid(old(self).bids@, old(self).asks@, *m),
            m.kind is Market,
        ensures
            final(self).wf(),
            final(self).uncrossed(),
            final(self).bids@ == execute_books(old(self).bids@, old(self).asks@, *m).0,
            final(self).asks@ == execute_books(old(self).bids@, old(self).asks@, *m).1,
            entries_correspond(r@, execute_entries(old(self).bids@, old(self).asks@, *m, ts)),
    {
        let ghost bids0 = self.bids@;
        let ghost asks0 = self.asks@;
        let v0 = m.volume.unwrap();
        let (v2, fills) = if m.side == OrderSide::Ask {
            proof {
                lemma_sweep_book_wf(self.bids@, OrderSide::Bid, Option::None, v0, Option::None);
            }
            let (v2, _quote_left, fills) = sweep_book_exec(
                &mut self.bids,
                OrderSide::Bid,
                None,
                v0,
                None,
            );
            (v2, fills)
        } else {
            let qv = match m.max_quote {
                Some(x) => x,
                None => 0,
            };
            proof {
                lemma_sweep_book_wf(self.asks@, OrderSide::Ask, Option::None, v0, Option::Some(qv));
            }
            let (v2, _quote_left, fills) = sweep_book_exec(
                &mut self.asks,
                OrderSide::Ask,
                None,
                v0,
                Some(qv),
            );
            (v2, fills)
        };
        proof {
            let s = message_sweep(bids0, asks0, *m);
            if m.side is Ask {
                assert(self.bids@ == s.book && self.asks@ == asks0);
            } else {
                assert(self.asks@ == s.book && self.bids@ == bids0);
            }
            crate::events::lemma_execute_books_invariants(bids0, asks0, *m);
        }
        let mut taker_events = build_taker_fill_events(&fills, ts);
        if v2 == v0 {
            taker_events.push(
                OrderEvent {
                    timestamp: ts,
                    kind: OrderEventType::NoMatch,
                    remaining_volume: Some(v2),
                    traded_price: None,
                    crossed_id: None,
                },
            );
        }
        taker_events.push(
            OrderEvent {
                timestamp: ts,
                kind: OrderEventType::Closed,
                remaining_volume: Some(v2),
                traded_price: None,
                crossed_id: None,
            },
        );
        let mut entries = build_maker_entries(&fills, m.id, ts);
        let ghost makers = entries@;
        entries.push((m.id, taker_events));
        proof {
            let s = message_sweep(bids0, asks0, *m);
            assert(taker_events@ =~= taker_seq_market(s.fills, v0, s.taker_left, ts));
            let se = execute_entries(bids0, asks0, *m, ts);
            let me = maker_entries(s.fills, m.id, ts);
            assert(se == me.push((m.id, taker_seq_market(s.fills, v0, s.taker_left, ts))));
            assert forall|i: int|
                0 <= i < entries@.len() implies (#[trigger] entries@[i]).0 == se[i].0
                && entries@[i].1@ == se[i].1 by {
                if i < makers.len() {
                    assert(entries@[i] == makers[i]);
                    assert(se[i] == me[i]);
                } else {
                    assert(entries@[i] == (m.id, taker_events));
                }
            }
        }
        entries
    }

    /// Process a limit order at the given timestamp: sweep the opposite
    /// book while its best price crosses the limit, then rest whatever
    /// volume is left on the message's own side.
    fn execute_limit(&mut self, m: &OrderMessage, ts: UTCNanoSeconds) -> (r: Vec<
        (OrderId, Vec<OrderEvent>),
    >)
        requires
            old(self).wf(),
            old(self).uncrossed(),
            msg_valid(old(self).bids@, old(self).asks@, *m),
            m.kind is Limit,
        ensures
            final(self).wf(),
            final(self).uncrossed(),
            final(self).bids@ == execute_books(old(self).bids@, old(self).asks@, *m).0,
            final(self).asks@ == execute_books(old(self).bids@, old(self).asks@, *m).1,
            entries_correspond(r@, execute_entries(old(self).bids@, old(self).asks@, *m, ts)),
    {
        let ghost bids0 = self.bids@;
        let ghost asks0 = self.asks@;
        let v0 = m.volume.unwrap();
        let p = m.price.unwrap();
        let (v2, fills) = if m.side == OrderSide::Bid {
            proof {
                lemma_sweep_book_wf(self.asks@, OrderSide::Ask, Option::Some(p), v0, Option::None);
                lemma_sweep_book_uncrossable(self.asks@, OrderSide::Ask, Option::Some(p), v0);
            }
            let (v2, _quote_left, fills) = sweep_book_exec(
                &mut self.asks,
                OrderSide::Ask,
                Some(p),
                v0,
                None,
            );
            (v2, fills)
        } else {
            proof {
                lemma_sweep_book_wf(self.bids@, OrderSide::Bid, Option::Some(p), v0, Option::None);
                lemma_sweep_book_uncrossable(self.bids@, OrderSide::Bid, Option::Some(p), v0);
            }
            let (v2, _quote_left, fills) = sweep_book_exec(
                &mut self.bids,
                OrderSide::Bid,
                Some(p),
                v0,
                None,
            );
            (v2, fills)
        };
        let ghost s = message_sweep(bids0, asks0, *m);
        if v2 > 0 {
            proof {
                if m.side is Bid {
                    assert(!book_has_id(self.bids@, m.id));
                    assert(!book_has_id(self.asks@, m.id)) by {
                        if book_has_id(self.asks@, m.id) {
                            assert(book_has_id(asks0, m.id));
                        }
                    }
                    lemma_book_insert_wf(
                        self.bids@,
                        p,
                        OrderbookOrder { id: m.id, remaining_volume: v2 },
                    );
                } else {
                    assert(!book_has_id(self.asks@, m.id));
                    assert(!book_has_id(self.bids@, m.id)) by {
                        if book_has_id(self.bids@, m.id) {
                            assert(book_has_id(bids0, m.id));
                        }
                    }
                    lemma_book_insert_wf(
                        self.asks@,
                        p,
                        OrderbookOrder { id: m.id, remaining_volume: v2 },
                    );
                }
            }
            self.insert(m, v2);
        }
        proof {
            let o = OrderbookOrder { id: m.id, remaining_volume: s.taker_left };
            if m.side is Bid {
                assert(self.asks@ == s.book);
                if s.taker_left > 0 {
                    assert(self.bids@ == book_insert(bids0, p, o));
                } else {
                    assert(self.bids@ == bids0);
                }
            } else {
                assert(self.bids@ == s.book);
                if s.taker_left > 0 {
                    assert(self.asks@ == book_insert(asks0, p, o));
                } else {
                    assert(self.asks@ == asks0);
                }
            }
            crate::events::lemma_execute_books_invariants(bids0, asks0, *m);
        }
        let mut taker_events = build_taker_fill_events(&fills, ts);
        if v2 == v0 {
            taker_events.push(
                OrderEvent {
                    timestamp: ts,
                    kind: OrderEventType::NoMatch,
                    remaining_volume: Some(v2),
                    traded_price: None,
                    crossed_id: None,
                },
            );
        }
        if v2 > 0 {
            taker_events.push(
                OrderEvent {
                    timestamp: ts,
                    kind: OrderEventType::Open,
                    remaining_volume: Some(v2),
                    traded_price: None,
                    crossed_id: None,
                },
            );
        } else {
            taker_events.push(
                OrderEvent {
                    timestamp: ts,
                    kind: OrderEventType::Closed,
                    remaining_volume: Some(0),
                    traded_price: None,
                    crossed_id: None,
                },
            );
        }
        let mut entries = build_maker_entries(&fills, m.id, ts);
        let ghost makers = entries@;
        entries.push((m.id, taker_events));
        proof {
            assert(taker_events@ =~= taker_seq_limit(s.fills, v0, s.taker_left, ts));
            let se = execute_entries(bids0, asks0, *m, ts);
            let me = maker_entries(s.fills, m.id, ts);
            assert(se == me.push((m.id, taker_seq_limit(s.fills, v0, s.taker_left, ts))));
            assert forall|i: int|
                0 <= i < entries@.len() implies (#[trigger] entries@[i]).0 == se[i].0
                && entries@[i].1@ == se[i].1 by {
                if i < makers.len() {
                    assert(entries@[i] == makers[i]);
                    assert(se[i] == me[i]);
                } else {
                    assert(entries@[i] == (m.id, taker_events));
                }
            }
        }
        entries
    }

    /// Process one message at the given timestamp and return its grouped
    /// events, keyed by order id: one entry per resting order it touched,
    /// then the message's own sequence under its id.
    pub fn execute_order_at(&mut self, order_message: &OrderMessage, timestamp: UTCNanoSeconds) -> (r: Vec<(OrderId, Vec<OrderEvent>)>)
        requires
            old(self).wf(),
            old(self).uncrossed(),
            msg_valid(old(self).bids@, old(self).asks@, *order_message),
        ensures
            final(self).wf(),
            final(self).uncrossed(),
            final(self).bids@ == execute_books(
                old(self).bids@,
                old(self).asks@,
                *order_message,
            ).0,
            final(self).asks@ == execute_books(
                old(self).bids@,
                old(self).asks@,
                *order_message,
            ).1,
            entries_correspond(
                r@,
                execute_entries(old(self).bids@, old(self).asks@, *order_message, timestamp),
            ),
    {
        match order_message.kind {
            OrderType::Cancel => self.execute_cancel(order_message, timestamp),
            OrderType::Market => self.execute_market(order_message, timestamp),
            OrderType::Limit => self.execute_limit(order_message, timestamp),
        }
    }

    /// Process one message, stamping its events with the current clock
    /// reading, and return its grouped events keyed by order id.
    pub fn execute_order(&mut self, order_message: &OrderMessage) -> (r: Vec<
        (OrderId, Vec<OrderEvent>),
    >)
        requires
            old(self).wf(),
            old(self).uncrossed(),
            msg_valid(old(self).bids@, old(self).asks@, *order_message),
        ensures
            final(self).wf(),
            final(self).uncrossed(),
            final(self).bids@ == execute_books(
                old(self).bids@,
                old(self).asks@,
                *order_message,
            ).0,
            final(self).asks@ == execute_books(
                old(self).bids@,
                old(self).asks@,
                *order_message,
            ).1,
            exists|ts: UTCNanoSeconds|
                entries_correspond(
                    #[trigger] r@,
                    execute_entries(old(self).bids@, old(self).asks@, *order_message, ts),
                ),
    {
        let timestamp = now_timestamp_nanos();
        let r = self.execute_order_at(order_message, timestamp);
        proof {
            assert(entries_correspond(
                r@,
                execute_entries(old(self).bids@, old(self).asks@, *order_message, timestamp),
            ));
        }
        r
    }
}

/// The event sequences grouped for the order with this id: the first
/// entry of the map that carries it, or `None` when none does.
pub fn find_events<'a>(
    entries: &'a Vec<(OrderId, Vec<OrderEvent>)>,
    id: OrderId,
) -> (r: Option<&'a Vec<OrderEvent>>)
    ensures
        match r {
            Some(es) => exists|i: int|
                0 <= i < entries@.len() && (#[trigger] entries@[i]).0 == id && es@
                    == entries@[i].1@,
            None => forall|i: int| 0 <= i < entries@.len() ==> (#[trigger] entries@[i]).0 != id,
        },
{
    let mut i: usize = 0;
    while i < entries.len()
        invariant
            0 <= i <= entries@.len(),
            forall|j: int| 0 <= j < i ==> (#[trigger] entries@[j]).0 != id,
        decreases entries@.len() - i,
    {
        if entries[i].0 == id {
            return Some(&entries[i].1);
        }
        i = i + 1;
    }
    None
}

} // verus!
