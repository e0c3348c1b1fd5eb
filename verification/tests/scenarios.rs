use orderbooks::Orderbook;
use orderbooks::OrderbookOrder;
use orderbooks::Orderbooks;
use orderbooks::find_events;
use orderbooks::OrderEventType;
use orderbooks::OrderMessage;
use orderbooks::OrderSide;
use orderbooks::OrderType;

fn limit(id: u128, side: OrderSide, volume: u64, price: u64) -> OrderMessage {
    OrderMessage {
        id,
        target_id: None,
        created_at: 0,
        side,
        kind: OrderType::Limit,
        volume: Some(volume),
        price: Some(price),
        max_quote: None,
        events: Vec::new(),
    }
}

fn market(id: u128, side: OrderSide, volume: u64, max_quote: Option<u64>) -> OrderMessage {
    OrderMessage {
        id,
        target_id: None,
        created_at: 0,
        side,
        kind: OrderType::Market,
        volume: Some(volume),
        price: None,
        max_quote,
        events: Vec::new(),
    }
}

fn cancel(id: u128, target_id: u128) -> OrderMessage {
    OrderMessage {
        id,
        target_id: Some(target_id),
        created_at: 0,
        side: OrderSide::NoSide,
        kind: OrderType::Cancel,
        volume: None,
        price: None,
        max_quote: None,
        events: Vec::new(),
    }
}

#[test]
fn scenario_limit_on_empty_book() {
    let mut books = Orderbooks::default();
    let msg = limit(1, OrderSide::Ask, 38_000, 9_800_000);
    let events = books.execute_order(&msg);

    assert_eq!(events.len(), 1);
    let own = find_events(&events, 1).unwrap();
    assert_eq!(own.len(), 2);
    assert_eq!(own[0].kind, OrderEventType::NoMatch);
    assert_eq!(own[0].remaining_volume, Some(38_000));
    assert_eq!(own[1].kind, OrderEventType::Open);
    assert_eq!(own[1].remaining_volume, Some(38_000));
    assert_eq!(books.count(), (0, 1, 1));
}

#[test]
fn scenario_market_on_empty_book() {
    let mut books = Orderbooks::default();
    let msg = market(1, OrderSide::Ask, 38_000, None);
    let events = books.execute_order(&msg);

    assert_eq!(events.len(), 1);
    let own = find_events(&events, 1).unwrap();
    assert_eq!(own.len(), 2);
    assert_eq!(own[0].kind, OrderEventType::NoMatch);
    assert_eq!(own[0].remaining_volume, Some(38_000));
    assert_eq!(own[1].kind, OrderEventType::Closed);
    assert_eq!(own[1].remaining_volume, Some(38_000));
    assert_eq!(books.count(), (0, 0, 0));
}

#[test]
fn scenario_insert_then_cancel() {
    let mut books = Orderbooks::default();
    books.execute_order(&limit(10, OrderSide::Bid, 38_000, 9_800_000));
    let events = books.execute_order(&cancel(11, 10));

    assert_eq!(events.len(), 2);
    let cancelled = find_events(&events, 10).unwrap();
    assert_eq!(cancelled.len(), 1);
    assert_eq!(cancelled[0].kind, OrderEventType::Cancelled);
    assert_eq!(cancelled[0].remaining_volume, Some(38_000));
    assert_eq!(cancelled[0].crossed_id, Some(10));
    let own = find_events(&events, 11).unwrap();
    assert_eq!(own.len(), 1);
    assert_eq!(own[0].kind, OrderEventType::Closed);
    assert_eq!(own[0].remaining_volume, None);
    assert_eq!(own[0].crossed_id, Some(11));
    assert_eq!(books.count(), (0, 0, 0));
}

#[test]
fn scenario_perfect_cross() {
    let mut books = Orderbooks::default();
    books.execute_order(&limit(1, OrderSide::Ask, 10, 100));
    let events = books.execute_order(&market(2, OrderSide::Bid, 10, Some(1000)));

    let own = find_events(&events, 2).unwrap();
    assert_eq!(own.len(), 2);
    assert_eq!(own[0].kind, OrderEventType::HasMatch);
    assert_eq!(own[0].remaining_volume, Some(0));
    assert_eq!(own[0].crossed_id, Some(1));
    assert_eq!(own[0].traded_price, Some(100));
    assert_eq!(own[1].kind, OrderEventType::Closed);
    assert_eq!(own[1].remaining_volume, Some(0));
    let maker = find_events(&events, 1).unwrap();
    assert_eq!(maker.len(), 2);
    assert_eq!(maker[0].kind, OrderEventType::HasMatch);
    assert_eq!(maker[0].remaining_volume, Some(0));
    assert_eq!(maker[0].crossed_id, Some(2));
    assert_eq!(maker[0].traded_price, Some(100));
    assert_eq!(maker[1].kind, OrderEventType::Closed);
    assert_eq!(maker[1].remaining_volume, Some(0));
    assert_eq!(books.count(), (0, 0, 0));
}

#[test]
fn scenario_partial_market_against_limit() {
    let mut books = Orderbooks::default();
    books.execute_order(&limit(1, OrderSide::Ask, 10, 100));
    let events = books.execute_order(&market(2, OrderSide::Bid, 9, Some(1000)));

    let own = find_events(&events, 2).unwrap();
    assert_eq!(own.len(), 2);
    assert_eq!(own[0].kind, OrderEventType::HasMatch);
    assert_eq!(own[0].remaining_volume, Some(0));
    assert_eq!(own[0].crossed_id, Some(1));
    assert_eq!(own[0].traded_price, Some(100));
    assert_eq!(own[1].kind, OrderEventType::Closed);
    assert_eq!(own[1].remaining_volume, Some(0));
    let maker = find_events(&events, 1).unwrap();
    assert_eq!(maker.len(), 1);
    assert_eq!(maker[0].kind, OrderEventType::HasMatch);
    assert_eq!(maker[0].remaining_volume, Some(1));
    assert_eq!(maker[0].crossed_id, Some(2));
    assert_eq!(maker[0].traded_price, Some(100));
    assert_eq!(books.count(), (0, 1, 1));
    // the surviving resting ask kept its identity and its last lot
    assert_eq!(books.asks.orders.len(), 1);
    assert_eq!(books.asks.orders[0].price, 100);
    assert_eq!(books.asks.orders[0].orders.len(), 1);
    assert_eq!(books.asks.orders[0].orders[0].id, 1);
    assert_eq!(books.asks.orders[0].orders[0].remaining_volume, 1);
}

#[test]
fn scenario_budget_limited_buy_market() {
    let mut books = Orderbooks::default();
    books.execute_order(&limit(1, OrderSide::Ask, 5, 100));
    books.execute_order(&limit(2, OrderSide::Ask, 5, 200));
    let events = books.execute_order(&market(3, OrderSide::Bid, 20, Some(100)));

    // one unit affordable at 100 from the first ask, none at 200
    let own = find_events(&events, 3).unwrap();
    assert_eq!(own.len(), 2);
    assert_eq!(own[0].kind, OrderEventType::HasMatch);
    assert_eq!(own[0].remaining_volume, Some(19));
    assert_eq!(own[0].crossed_id, Some(1));
    assert_eq!(own[0].traded_price, Some(100));
    assert_eq!(own[1].kind, OrderEventType::Closed);
    assert_eq!(own[1].remaining_volume, Some(19));
    assert_eq!(books.count(), (0, 2, 2));
    assert_eq!(books.asks.orders[0].orders[0].remaining_volume, 4);
    assert_eq!(books.asks.orders[1].orders[0].remaining_volume, 5);
}

#[test]
fn scenario_sweep_across_price_levels() {
    let mut books = Orderbooks::default();
    books.execute_order(&limit(1, OrderSide::Ask, 10, 100));
    books.execute_order(&limit(2, OrderSide::Ask, 10, 100));
    let events = books.execute_order(&limit(3, OrderSide::Bid, 20, 200));

    let own = find_events(&events, 3).unwrap();
    assert_eq!(own.len(), 3);
    assert_eq!(own[0].kind, OrderEventType::HasMatch);
    assert_eq!(own[0].crossed_id, Some(1));
    assert_eq!(own[0].traded_price, Some(100));
    assert_eq!(own[1].kind, OrderEventType::HasMatch);
    assert_eq!(own[1].crossed_id, Some(2));
    assert_eq!(own[1].traded_price, Some(100));
    assert_eq!(own[2].kind, OrderEventType::Closed);
    assert_eq!(own[2].remaining_volume, Some(0));
    assert_eq!(books.count(), (0, 0, 0));
}

#[test]
fn limit_then_cancel_restores_book_shape() {
    let mut books = Orderbooks::default();
    books.execute_order(&limit(1, OrderSide::Bid, 10, 90));
    books.execute_order(&limit(2, OrderSide::Ask, 10, 110));
    let count_before = books.count();
    let best_bid_before = books.bids.orders[books.bids.orders.len() - 1].price;
    let best_ask_before = books.asks.orders[0].price;

    books.execute_order(&limit(3, OrderSide::Bid, 7, 95));
    books.execute_order(&cancel(4, 3));

    assert_eq!(books.count(), count_before);
    assert_eq!(books.bids.orders[books.bids.orders.len() - 1].price, best_bid_before);
    assert_eq!(books.asks.orders[0].price, best_ask_before);
}

#[test]
fn time_priority_within_price_level() {
    let mut books = Orderbooks::default();
    books.execute_order(&limit(1, OrderSide::Bid, 4, 100));
    books.execute_order(&limit(2, OrderSide::Bid, 6, 100));
    let events = books.execute_order(&market(3, OrderSide::Ask, 10, None));

    // both resting bids fill completely, in insertion order
    let own = find_events(&events, 3).unwrap();
    assert_eq!(own.len(), 3);
    assert_eq!(own[0].kind, OrderEventType::HasMatch);
    assert_eq!(own[0].crossed_id, Some(1));
    assert_eq!(own[0].remaining_volume, Some(6));
    assert_eq!(own[1].kind, OrderEventType::HasMatch);
    assert_eq!(own[1].crossed_id, Some(2));
    assert_eq!(own[1].remaining_volume, Some(0));
    assert_eq!(own[2].kind, OrderEventType::Closed);
    for maker_id in [1u128, 2u128] {
        let maker = find_events(&events, maker_id).unwrap();
        assert_eq!(maker.len(), 2);
        assert_eq!(maker[0].kind, OrderEventType::HasMatch);
        assert_eq!(maker[0].remaining_volume, Some(0));
        assert_eq!(maker[1].kind, OrderEventType::Closed);
    }
    assert_eq!(books.count(), (0, 0, 0));
}

#[test]
fn books_stay_uncrossed_after_partial_limit_cross() {
    let mut books = Orderbooks::default();
    books.execute_order(&limit(1, OrderSide::Ask, 5, 100));
    books.execute_order(&limit(2, OrderSide::Ask, 5, 120));
    // crosses the ask at 100 and rests the remainder at 110
    books.execute_order(&limit(3, OrderSide::Bid, 8, 110));

    assert_eq!(books.count(), (1, 1, 2));
    let best_bid = books.bids.orders[books.bids.orders.len() - 1].price;
    let best_ask = books.asks.orders[0].price;
    assert!(best_bid < best_ask);
    assert_eq!(best_bid, 110);
    assert_eq!(best_ask, 120);
    // every resting order still has volume and every level a queue
    for level in books.bids.orders.iter().chain(books.asks.orders.iter()) {
        assert!(!level.orders.is_empty());
        for resting in level.orders.iter() {
            assert!(resting.remaining_volume > 0);
        }
    }
}

#[test]
fn injected_clock_stamps_every_event() {
    let mut books = Orderbooks::default();
    books.execute_order_at(&limit(1, OrderSide::Ask, 10, 100), 41);
    let events = books.execute_order_at(&market(2, OrderSide::Bid, 10, Some(2000)), 42);

    for (_, per_order) in events.iter() {
        for event in per_order.iter() {
            assert_eq!(event.timestamp, 42);
        }
    }
}

#[test]
fn default_message_is_blank() {
    let msg = OrderMessage::default();
    assert_eq!(msg.target_id, None);
    assert_eq!(msg.side, OrderSide::NoSide);
    assert_eq!(msg.kind, OrderType::Limit);
    assert_eq!(msg.volume, None);
    assert_eq!(msg.price, None);
    assert_eq!(msg.max_quote, None);
    assert!(msg.events.is_empty());
    // two draws give distinct random identities
    let other = OrderMessage::default();
    assert_ne!(msg.id, other.id);
}

#[test]
fn side_book_insert_and_remove_directly() {
    let mut book = Orderbook::default();
    book.insert(200, OrderbookOrder { id: 1, remaining_volume: 5 });
    book.insert(100, OrderbookOrder { id: 2, remaining_volume: 7 });
    book.insert(200, OrderbookOrder { id: 3, remaining_volume: 9 });
    assert_eq!(book.count(), 3);
    // levels stay price-ascending and FIFOs keep arrival order
    assert_eq!(book.orders[0].price, 100);
    assert_eq!(book.orders[1].price, 200);
    assert_eq!(book.orders[1].orders[0].id, 1);
    assert_eq!(book.orders[1].orders[1].id, 3);

    let removed = book.remove(1).unwrap();
    assert_eq!(removed.id, 1);
    assert_eq!(removed.remaining_volume, 5);
    assert_eq!(book.count(), 2);
    assert_eq!(book.orders[1].orders[0].id, 3);

    // removing the only order of a level drops the level itself
    let removed = book.remove(2).unwrap();
    assert_eq!(removed.remaining_volume, 7);
    assert_eq!(book.orders.len(), 1);
    assert!(book.remove(2).is_none());
}

#[test]
fn find_events_misses_unknown_id() {
    let mut books = Orderbooks::default();
    let events = books.execute_order(&limit(1, OrderSide::Ask, 10, 100));
    assert!(find_events(&events, 99).is_none());
}
