use orderbooks::Orderbooks;
use orderbooks::find_events;
use orderbooks::OrderEventType;
use orderbooks::OrderMessage;
use orderbooks::OrderSide;
use orderbooks::OrderType;

#[test]
fn test_limit_insert_on_empty_books() {
    let mut the_orderbooks = Orderbooks::default();
    let new_limit_order = OrderMessage {
        id: 1,
        target_id: None,
        created_at: 0,
        side: OrderSide::Ask,
        kind: OrderType::Limit,
        volume: Some(38_000),
        price: Some(9_800_000),
        max_quote: None,
        events: Vec::new(),
    };
    let events = the_orderbooks.execute_order(&new_limit_order);

    assert_eq!(events.len(), 1);
    assert_eq!(the_orderbooks.asks.count(), 1);
    assert_eq!(the_orderbooks.bids.count(), 0);
}

#[test]
fn test_market_insert_on_empty_books() {
    let mut the_orderbooks = Orderbooks::default();
    let new_market_order = OrderMessage {
        id: 1,
        target_id: None,
        created_at: 0,
        side: OrderSide::Ask,
        kind: OrderType::Market,
        volume: Some(38_000),
        price: None,
        max_quote: None,
        events: Vec::new(),
    };
    let events = the_orderbooks.execute_order(&new_market_order);

    assert_eq!(events.len(), 1);
    assert_eq!(the_orderbooks.count().2, 0);
}

#[test]
fn test_single_insert_then_cancel() {
    let mut the_orderbooks = Orderbooks::default();
    let order_id = 7;
    let new_limit_order = OrderMessage {
        id: order_id,
        target_id: None,
        created_at: 0,
        side: OrderSide::Bid,
        kind: OrderType::Limit,
        volume: Some(38_000),
        price: Some(9_800_000),
        max_quote: None,
        events: Vec::new(),
    };
    let new_cancel_order = OrderMessage {
        id: 8,
        target_id: Some(order_id),
        created_at: 0,
        side: OrderSide::NoSide,
        kind: OrderType::Cancel,
        volume: None,
        price: None,
        max_quote: None,
        events: Vec::new(),
    };
    the_orderbooks.execute_order(&new_limit_order);
    let events = the_orderbooks.execute_order(&new_cancel_order);

    assert_eq!(events.len(), 2);
    assert_eq!(the_orderbooks.count().2, 0);
}

#[test]
fn test_single_perfect_match_market_bid_to_limit_ask() {
    let mut the_orderbooks = Orderbooks::default();
    let new_limit_order = OrderMessage {
        id: 1,
        target_id: None,
        created_at: 0,
        side: OrderSide::Ask,
        kind: OrderType::Limit,
        volume: Some(10),
        price: Some(100),
        max_quote: None,
        events: Vec::new(),
    };
    let new_market_order = OrderMessage {
        id: 2,
        target_id: None,
        created_at: 0,
        side: OrderSide::Bid,
        kind: OrderType::Market,
        volume: Some(10),
        price: None,
        max_quote: Some(1000),
        events: Vec::new(),
    };
    let limit_events = the_orderbooks.execute_order(&new_limit_order);
    let market_events = the_orderbooks.execute_order(&new_market_order);

    assert_eq!(limit_events.len(), 1);
    assert_eq!(market_events.len(), 2);
    assert_eq!(the_orderbooks.count().2, 0);
}

#[test]
fn test_single_perfect_match_market_ask_to_limit_bid() {
    let mut the_orderbooks = Orderbooks::default();
    let new_limit_order = OrderMessage {
        id: 1,
        target_id: None,
        created_at: 0,
        side: OrderSide::Bid,
        kind: OrderType::Limit,
        volume: Some(10),
        price: Some(100),
        max_quote: None,
        events: Vec::new(),
    };
    let new_market_order = OrderMessage {
        id: 2,
        target_id: None,
        created_at: 0,
        side: OrderSide::Ask,
        kind: OrderType::Market,
        volume: Some(10),
        price: None,
        max_quote: None,
        events: Vec::new(),
    };
    let limit_insertion_events = the_orderbooks.execute_order(&new_limit_order);
    let market_execution_events = the_orderbooks.execute_order(&new_market_order);

    assert_eq!(limit_insertion_events.len(), 1);
    assert_eq!(market_execution_events.len(), 2);
    assert_eq!(the_orderbooks.count().2, 0);
}

#[test]
fn test_single_partial_match_market_bid_to_limit_ask() {
    let mut the_orderbooks = Orderbooks::default();
    let new_limit_order = OrderMessage {
        id: 1,
        target_id: None,
        created_at: 0,
        side: OrderSide::Ask,
        kind: OrderType::Limit,
        volume: Some(10),
        price: Some(100),
        max_quote: None,
        events: Vec::new(),
    };
    let new_market_order = OrderMessage {
        id: 2,
        target_id: None,
        created_at: 0,
        side: OrderSide::Bid,
        kind: OrderType::Market,
        volume: Some(9),
        price: None,
        max_quote: Some(1000),
        events: Vec::new(),
    };
    let limit_id = new_limit_order.id;
    let market_id = new_market_order.id;
    let limit_events = the_orderbooks.execute_order(&new_limit_order);
    let market_events = the_orderbooks.execute_order(&new_market_order);
    let limit_insertion_events = find_events(&limit_events, limit_id).unwrap();
    let limit_execution_events = find_events(&market_events, limit_id).unwrap();
    let market_execution_events = find_events(&market_events, market_id).unwrap();

    assert_eq!(limit_events.len(), 1);
    assert_eq!(limit_insertion_events.len(), 2);
    assert_eq!(limit_insertion_events[0].kind, OrderEventType::NoMatch);
    assert_eq!(limit_insertion_events[1].kind, OrderEventType::Open);
    assert_eq!(market_events.len(), 2);
    assert_eq!(limit_execution_events.len(), 1);
    assert_eq!(limit_execution_events[0].kind, OrderEventType::HasMatch);
    assert_eq!(market_execution_events.len(), 2);
    assert_eq!(market_execution_events[0].kind, OrderEventType::HasMatch);
    assert_eq!(market_execution_events[1].kind, OrderEventType::Closed);
    assert_eq!(the_orderbooks.count().0, 0);
    assert_eq!(the_orderbooks.count().1, 1);
    assert_eq!(the_orderbooks.count().2, 1);
}

#[test]
fn test_single_partial_match_market_ask_to_limit_bid() {
    let mut the_orderbooks = Orderbooks::default();
    let new_limit_order = OrderMessage {
        id: 1,
        target_id: None,
        created_at: 0,
        side: OrderSide::Bid,
        kind: OrderType::Limit,
        volume: Some(10),
        price: Some(100),
        max_quote: None,
        events: Vec::new(),
    };
    let new_market_order = OrderMessage {
        id: 2,
        target_id: None,
        created_at: 0,
        side: OrderSide::Ask,
        kind: OrderType::Market,
        volume: Some(9),
        price: None,
        max_quote: None,
        events: Vec::new(),
    };
    let limit_id = new_limit_order.id;
    let market_id = new_market_order.id;
    let limit_events = the_orderbooks.execute_order(&new_limit_order);
    let market_events = the_orderbooks.execute_order(&new_market_order);
    let limit_insertion_events = find_events(&limit_events, limit_id).unwrap();
    let limit_execution_events = find_events(&market_events, limit_id).unwrap();
    let market_execution_events = find_events(&market_events, market_id).unwrap();

    assert_eq!(limit_events.len(), 1);
    assert_eq!(limit_insertion_events.len(), 2);
    assert_eq!(limit_insertion_events[0].kind, OrderEventType::NoMatch);
    assert_eq!(limit_insertion_events[1].kind, OrderEventType::Open);
    assert_eq!(market_events.len(), 2);
    assert_eq!(limit_execution_events.len(), 1);
    assert_eq!(limit_execution_events[0].kind, OrderEventType::HasMatch);
    assert_eq!(market_execution_events.len(), 2);
    assert_eq!(market_execution_events[0].kind, OrderEventType::HasMatch);
    assert_eq!(market_execution_events[1].kind, OrderEventType::Closed);
    assert_eq!(the_orderbooks.count().0, 1);
    assert_eq!(the_orderbooks.count().1, 0);
    assert_eq!(the_orderbooks.count().2, 1);
}

#[test]
fn test_single_perfect_market_ask_to_many_limit_bids() {
    let mut the_orderbooks = Orderbooks::default();
    let new_limit_order_0 = OrderMessage {
        id: 1,
        target_id: None,
        created_at: 0,
        side: OrderSide::Bid,
        kind: OrderType::Limit,
        volume: Some(5),
        price: Some(100),
        max_quote: None,
        events: Vec::new(),
    };
    let new_limit_order_1 = OrderMessage {
        id: 2,
        target_id: None,
        created_at: 0,
        side: OrderSide::Bid,
        kind: OrderType::Limit,
        volume: Some(5),
        price: Some(200),
        max_quote: None,
        events: Vec::new(),
    };
    let new_market_order = OrderMessage {
        id: 3,
        target_id: None,
        created_at: 0,
        side: OrderSide::Ask,
        kind: OrderType::Market,
        volume: Some(10),
        price: None,
        max_quote: None,
        events: Vec::new(),
    };
    the_orderbooks.execute_order(&new_limit_order_0);
    the_orderbooks.execute_order(&new_limit_order_1);
    let market_execution_events = the_orderbooks.execute_order(&new_market_order);

    assert_eq!(market_execution_events.len(), 3);
    assert_eq!(the_orderbooks.count().2, 0);
}

#[test]
fn test_single_perfect_market_bid_to_many_limit_asks() {
    let mut the_orderbooks = Orderbooks::default();
    let new_limit_order_0 = OrderMessage {
        id: 1,
        target_id: None,
        created_at: 0,
        side: OrderSide::Ask,
        kind: OrderType::Limit,
        volume: Some(5),
        price: Some(100),
        max_quote: None,
        events: Vec::new(),
    };
    let new_limit_order_1 = OrderMessage {
        id: 2,
        target_id: None,
        created_at: 0,
        side: OrderSide::Ask,
        kind: OrderType::Limit,
        volume: Some(5),
        price: Some(200),
        max_quote: None,
        events: Vec::new(),
    };
    let new_market_order = OrderMessage {
        id: 3,
        target_id: None,
        created_at: 0,
        side: OrderSide::Bid,
        kind: OrderType::Market,
        volume: Some(10),
        price: None,
        max_quote: Some(1500),
        events: Vec::new(),
    };
    the_orderbooks.execute_order(&new_limit_order_0);
    the_orderbooks.execute_order(&new_limit_order_1);
    let market_execution_events = the_orderbooks.execute_order(&new_market_order);

    assert_eq!(market_execution_events.len(), 3);
    assert_eq!(the_orderbooks.count().2, 0);
}

#[test]
fn test_single_partial_market_ask_to_many_limit_bids() {
    let mut the_orderbooks = Orderbooks::default();
    let new_limit_order_0 = OrderMessage {
        id: 1,
        target_id: None,
        created_at: 0,
        side: OrderSide::Bid,
        kind: OrderType::Limit,
        volume: Some(5),
        price: Some(100),
        max_quote: None,
        events: Vec::new(),
    };
    let new_limit_order_1 = OrderMessage {
        id: 2,
        target_id: None,
        created_at: 0,
        side: OrderSide::Bid,
        kind: OrderType::Limit,
        volume: Some(5),
        price: Some(200),
        max_quote: None,
        events: Vec::new(),
    };
    let new_market_order = OrderMessage {
        id: 3,
        target_id: None,
        created_at: 0,
        side: OrderSide::Ask,
        kind: OrderType::Market,
        volume: Some(20),
        price: None,
        max_quote: None,
        events: Vec::new(),
    };
    the_orderbooks.execute_order(&new_limit_order_0);
    the_orderbooks.execute_order(&new_limit_order_1);
    let execution_events = the_orderbooks.execute_order(&new_market_order);
    let market_execution_events = find_events(&execution_events, new_market_order.id).unwrap();

    assert_eq!(execution_events.len(), 3);
    assert_eq!(market_execution_events.len(), 3);
    assert_eq!(market_execution_events[0].kind, OrderEventType::HasMatch);
    assert_eq!(market_execution_events[1].kind, OrderEventType::HasMatch);
    assert_eq!(market_execution_events[2].kind, OrderEventType::Closed);
    assert_eq!(the_orderbooks.count().2, 0);
}

#[test]
fn test_single_partial_market_bid_to_many_limit_asks() {
    let mut the_orderbooks = Orderbooks::default();
    let new_limit_order_0 = OrderMessage {
        id: 1,
        target_id: None,
        created_at: 0,
        side: OrderSide::Ask,
        kind: OrderType::Limit,
        volume: Some(5),
        price: Some(100),
        max_quote: None,
        events: Vec::new(),
    };
    let new_limit_order_1 = OrderMessage {
        id: 2,
        target_id: None,
        created_at: 0,
        side: OrderSide::Ask,
        kind: OrderType::Limit,
        volume: Some(5),
        price: Some(200),
        max_quote: None,
        events: Vec::new(),
    };
    let new_market_order = OrderMessage {
        id: 3,
        target_id: None,
        created_at: 0,
        side: OrderSide::Bid,
        kind: OrderType::Market,
        volume: Some(20),
        price: None,
        max_quote: Some(100),
        events: Vec::new(),
    };
    the_orderbooks.execute_order(&new_limit_order_0);
    the_orderbooks.execute_order(&new_limit_order_1);
    let execution_events = the_orderbooks.execute_order(&new_market_order);
    let market_execution_events = find_events(&execution_events, new_market_order.id).unwrap();

    assert_eq!(execution_events.len(), 2);
    assert_eq!(market_execution_events.len(), 2);
    assert_eq!(market_execution_events[0].kind, OrderEventType::HasMatch);
    assert_eq!(market_execution_events[1].kind, OrderEventType::Closed);
    assert_eq!(market_execution_events[1].remaining_volume.unwrap(), 19);
    assert_eq!(the_orderbooks.count().2, 2);
}

#[test]
fn test_single_perfect_limit_bid_to_limit_ask() {
    let mut the_orderbooks = Orderbooks::default();
    let new_limit_order_0 = OrderMessage {
        id: 1,
        target_id: None,
        created_at: 0,
        side: OrderSide::Ask,
        kind: OrderType::Limit,
        volume: Some(10),
        price: Some(100),
        max_quote: None,
        events: Vec::new(),
    };
    let new_limit_order_1 = OrderMessage {
        id: 2,
        target_id: None,
        created_at: 0,
        side: OrderSide::Bid,
        kind: OrderType::Limit,
        volume: Some(10),
        price: Some(200),
        max_quote: None,
        events: Vec::new(),
    };
    let insertion_events = the_orderbooks.execute_order(&new_limit_order_0);
    let execution_events = the_orderbooks.execute_order(&new_limit_order_1);

    assert_eq!(insertion_events.len(), 1);
    assert_eq!(execution_events.len(), 2);
    assert_eq!(the_orderbooks.count().2, 0);
}

#[test]
fn test_single_perfect_limit_ask_to_limit_bid() {
    let mut the_orderbooks = Orderbooks::default();
    let new_limit_order_0 = OrderMessage {
        id: 1,
        target_id: None,
        created_at: 0,
        side: OrderSide::Bid,
        kind: OrderType::Limit,
        volume: Some(10),
        price: Some(200),
        max_quote: None,
        events: Vec::new(),
    };
    let new_limit_order_1 = OrderMessage {
        id: 2,
        target_id: None,
        created_at: 0,
        side: OrderSide::Ask,
        kind: OrderType::Limit,
        volume: Some(10),
        price: Some(100),
        max_quote: None,
        events: Vec::new(),
    };
    let insertion_events = the_orderbooks.execute_order(&new_limit_order_0);
    let execution_events = the_orderbooks.execute_order(&new_limit_order_1);

    assert_eq!(insertion_events.len(), 1);
    assert_eq!(execution_events.len(), 2);
    assert_eq!(the_orderbooks.count().2, 0);
}

#[test]
fn test_single_partial_limit_bid_to_limit_ask() {
    let mut the_orderbooks = Orderbooks::default();
    let new_limit_order_0 = OrderMessage {
        id: 1,
        target_id: None,
        created_at: 0,
        side: OrderSide::Ask,
        kind: OrderType::Limit,
        volume: Some(12),
        price: Some(100),
        max_quote: None,
        events: Vec::new(),
    };
    let new_limit_order_1 = OrderMessage {
        id: 2,
        target_id: None,
        created_at: 0,
        side: OrderSide::Bid,
        kind: OrderType::Limit,
        volume: Some(10),
        price: Some(200),
        max_quote: None,
        events: Vec::new(),
    };
    let insertion_events = the_orderbooks.execute_order(&new_limit_order_0);
    let execution_events = the_orderbooks.execute_order(&new_limit_order_1);

    assert_eq!(insertion_events.len(), 1);
    assert_eq!(execution_events.len(), 2);
    assert_eq!(the_orderbooks.count().0, 0);
    assert_eq!(the_orderbooks.count().1, 1);
    assert_eq!(the_orderbooks.count().2, 1);
}

#[test]
fn test_single_partial_limit_ask_to_limit_bid() {
    let mut the_orderbooks = Orderbooks::default();
    let new_limit_order_0 = OrderMessage {
        id: 1,
        target_id: None,
        created_at: 0,
        side: OrderSide::Bid,
        kind: OrderType::Limit,
        volume: Some(12),
        price: Some(200),
        max_quote: None,
        events: Vec::new(),
    };
    let new_limit_order_1 = OrderMessage {
        id: 2,
        target_id: None,
        created_at: 0,
        side: OrderSide::Ask,
        kind: OrderType::Limit,
        volume: Some(10),
        price: Some(100),
        max_quote: None,
        events: Vec::new(),
    };
    let insertion_events = the_orderbooks.execute_order(&new_limit_order_0);
    let execution_events = the_orderbooks.execute_order(&new_limit_order_1);

    assert_eq!(insertion_events.len(), 1);
    assert_eq!(execution_events.len(), 2);
    assert_eq!(the_orderbooks.count().0, 1);
    assert_eq!(the_orderbooks.count().1, 0);
    assert_eq!(the_orderbooks.count().2, 1);
}

#[test]
fn test_single_perfect_limit_bid_to_many_limit_ask() {
    let mut the_orderbooks = Orderbooks::default();
    let new_limit_order_0 = OrderMessage {
        id: 1,
        target_id: None,
        created_at: 0,
        side: OrderSide::Ask,
        kind: OrderType::Limit,
        volume: Some(10),
        price: Some(100),
        max_quote: None,
        events: Vec::new(),
    };
    let new_limit_order_1 = OrderMessage {
        id: 2,
        target_id: None,
        created_at: 0,
        side: OrderSide::Ask,
        kind: OrderType::Limit,
        volume: Some(10),
        price: Some(100),
        max_quote: None,
        events: Vec::new(),
    };
    let new_limit_order_2 = OrderMessage {
        id: 3,
        target_id: None,
        created_at: 0,
        side: OrderSide::Bid,
        kind: OrderType::Limit,
        volume: Some(20),
        price: Some(200),
        max_quote: None,
        events: Vec::new(),
    };
    the_orderbooks.execute_order(&new_limit_order_0);
    the_orderbooks.execute_order(&new_limit_order_1);
    let execution_events = the_orderbooks.execute_order(&new_limit_order_2);

    assert_eq!(execution_events.len(), 3);
    assert_eq!(the_orderbooks.count().2, 0);
}

#[test]
fn test_single_perfect_limit_ask_to_many_limit_bid() {
    let mut the_orderbooks = Orderbooks::default();
    let new_limit_order_0 = OrderMessage {
        id: 1,
        target_id: None,
        created_at: 0,
        side: OrderSide::Bid,
        kind: OrderType::Limit,
        volume: Some(10),
        price: Some(200),
        max_quote: None,
        events: Vec::new(),
    };
    let new_limit_order_1 = OrderMessage {
        id: 2,
        target_id: None,
        created_at: 0,
        side: OrderSide::Bid,
        kind: OrderType::Limit,
        volume: Some(10),
        price: Some(200),
        max_quote: None,
        events: Vec::new(),
    };
    let new_limit_order_2 = OrderMessage {
        id: 3,
        target_id: None,
        created_at: 0,
        side: OrderSide::Ask,
        kind: OrderType::Limit,
        volume: Some(20),
        price: Some(100),
        max_quote: None,
        events: Vec::new(),
    };
    the_orderbooks.execute_order(&new_limit_order_0);
    the_orderbooks.execute_order(&new_limit_order_1);
    let execution_events = the_orderbooks.execute_order(&new_limit_order_2);

    assert_eq!(execution_events.len(), 3);
    assert_eq!(the_orderbooks.count().2, 0);
}

#[test]
fn test_single_partial_limit_bid_to_many_limit_ask() {
    let mut the_orderbooks = Orderbooks::default();
    let new_limit_order_0 = OrderMessage {
        id: 1,
        target_id: None,
        created_at: 0,
        side: OrderSide::Ask,
        kind: OrderType::Limit,
        volume: Some(6),
        price: Some(100),
        max_quote: None,
        events: Vec::new(),
    };
    let new_limit_order_1 = OrderMessage {
        id: 2,
        target_id: None,
        created_at: 0,
        side: OrderSide::Ask,
        kind: OrderType::Limit,
        volume: Some(6),
        price: Some(200),
        max_quote: None,
        events: Vec::new(),
    };
    let new_limit_order_2 = OrderMessage {
        id: 3,
        target_id: None,
        created_at: 0,
        side: OrderSide::Bid,
        kind: OrderType::Limit,
        volume: Some(10),
        price: Some(200),
        max_quote: None,
        events: Vec::new(),
    };
    the_orderbooks.execute_order(&new_limit_order_0);
    the_orderbooks.execute_order(&new_limit_order_1);
    let execution_events = the_orderbooks.execute_order(&new_limit_order_2);

    assert_eq!(execution_events.len(), 3);
    assert_eq!(the_orderbooks.count().0, 0);
    assert_eq!(the_orderbooks.count().1, 1);
    assert_eq!(the_orderbooks.count().2, 1);
}

#[test]
fn test_single_partial_limit_ask_to_many_limit_bid() {
    let mut the_orderbooks = Orderbooks::default();
    let new_limit_order_0 = OrderMessage {
        id: 1,
        target_id: None,
        created_at: 0,
        side: OrderSide::Bid,
        kind: OrderType::Limit,
        volume: Some(5),
        price: Some(200),
        max_quote: None,
        events: Vec::new(),
    };
    let new_limit_order_1 = OrderMessage {
        id: 2,
        target_id: None,
        created_at: 0,
        side: OrderSide::Bid,
        kind: OrderType::Limit,
        volume: Some(10),
        price: Some(100),
        max_quote: None,
        events: Vec::new(),
    };
    let new_limit_order_2 = OrderMessage {
        id: 3,
        target_id: None,
        created_at: 0,
        side: OrderSide::Ask,
        kind: OrderType::Limit,
        volume: Some(10),
        price: Some(100),
        max_quote: None,
        events: Vec::new(),
    };
    the_orderbooks.execute_order(&new_limit_order_0);
    the_orderbooks.execute_order(&new_limit_order_1);
    let execution_events = the_orderbooks.execute_order(&new_limit_order_2);

    assert_eq!(execution_events.len(), 3);
    assert_eq!(the_orderbooks.count().0, 1);
    assert_eq!(the_orderbooks.count().1, 0);
    assert_eq!(the_orderbooks.count().2, 1);
}
