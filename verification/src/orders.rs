//! Domain value types: sides, order kinds, event kinds, the records that
//! cross the public boundary, and the two unverified reads (clock, fresh
//! order id) the engine takes from the outside world.

use vstd::prelude::*;

verus! {

/// A 128-bit order identifier, externally supplied with each message.
pub type OrderId = u128;

/// An order size, in instrument-defined lot units.
pub type OrderVolume = u64;

/// A price, in instrument-defined minor units.
pub type OrderPrice = u64;

/// A quote budget for a buy-side market order, in price times volume units.
pub type OrderQuote = u64;

/// Nanoseconds since the Unix epoch.
pub type UTCNanoSeconds = i64;

/// A price key of a side book.
pub type PriceLevel = u64;

/// Which side of the book an order belongs to. Cancel messages carry no
/// side and use `NoSide`.
#[derive(Copy, Clone, Debug, PartialEq, Eq, Structural)]
pub enum OrderSide {
    NoSide,
    Bid,
    Ask,
}

/// The kind of an inbound order message.
#[derive(Copy, Clone, Debug, PartialEq, Eq, Structural)]
pub enum OrderType {
    Cancel,
    Market,
    Limit,
}

/// The kind of an emitted lifecycle or trade event.
#[derive(Copy, Clone, Debug, PartialEq, Eq, Structural)]
pub enum OrderEventType {
    NoMatch,
    HasMatch,
    Open,
    Closed,
    Cancelled,
}

/// One lifecycle or trade event, describing a single order at a single
/// point of a message's processing. `remaining_volume` is always a
/// post-event snapshot of the order this event describes; `traded_price`
/// and `crossed_id` are populated on fills.
#[derive(Copy, Clone, Debug, PartialEq, Eq)]
pub struct OrderEvent {
    pub timestamp: UTCNanoSeconds,
    pub kind: OrderEventType,
    pub remaining_volume: Option<OrderVolume>,
    pub traded_price: Option<OrderPrice>,
    pub crossed_id: Option<OrderId>,
}

/// An inbound message: a new limit or market order, or a cancellation of
/// a resting order. Fields that a given kind does not use are `None`.
#[derive(Clone, Debug)]
pub struct OrderMessage {
    pub id: OrderId,
    pub target_id: Option<OrderId>,
    pub created_at: UTCNanoSeconds,
    pub side: OrderSide,
    pub kind: OrderType,
    pub volume: Option<OrderVolume>,
    pub price: Option<OrderPrice>,
    pub max_quote: Option<OrderQuote>,
    pub events: Vec<OrderEvent>,
}

/// A resting order held in a side book: its identity and what is left of
/// its volume.
#[derive(Copy, Clone, Debug, PartialEq, Eq, Structural)]
pub struct OrderbookOrder {
    pub id: OrderId,
    pub remaining_volume: OrderVolume,
}

/// Relies on `chrono::Utc::now` and `chrono::DateTime::timestamp_nanos_opt`:
/// reads the system clock and converts it to nanoseconds since the Unix
/// epoch, or `None` when that count does not fit in an `i64`. The result
/// depends on the machine's clock, so nothing is promised of it.
#[verifier::external_body]
fn clock_nanos() -> Option<i64> {
    chrono::Utc::now().timestamp_nanos_opt()
}

/// Relies on `uuid::Uuid::new_v4` and `uuid::Uuid::as_u128`: draws a random
/// version-4 UUID and returns its 128-bit value. The result is random, so
/// nothing is promised of it.
#[verifier::external_body]
pub(crate) fn fresh_order_id() -> OrderId {
    uuid::Uuid::new_v4().as_u128()
}

/// The current clock reading as nanoseconds since the Unix epoch, or zero
/// when the clock cannot be expressed in nanoseconds.
pub(crate) fn now_timestamp_nanos() -> UTCNanoSeconds {
    match clock_nanos() {
        Some(t) => t,
        None => 0,
    }
}

impl Default for OrderMessage {
    /// A blank message: a freshly drawn random id, the current time, and
    /// every optional field absent.
    fn default() -> (m: OrderMessage)
        ensures
            m.target_id is None,
            m.side is NoSide,
            m.kind is Limit,
            m.volume is None,
            m.price is None,
            m.max_quote is None,
            m.events@ == Seq::<OrderEvent>::empty(),
    {
        OrderMessage {
            id: fresh_order_id(),
            target_id: None,
            created_at: now_timestamp_nanos(),
            side: OrderSide::NoSide,
            kind: OrderType::Limit,
            volume: None,
            price: None,
            max_quote: None,
            events: Vec::new(),
        }
    }
}

} // verus!
