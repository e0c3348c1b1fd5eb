//! An in-memory continuous double-auction matching engine for a single
//! instrument: two price-sorted side books of resting limit orders, a
//! matcher that applies strict price-time priority to incoming limit and
//! market orders, and a grouped event stream describing every order a
//! message touched.

pub mod book;
pub mod books;
pub mod events;
pub mod laws;
pub mod model;
mod orders;
pub mod sweep;

pub use book::BookLevel;
pub use book::Orderbook;
pub use books::Orderbooks;
pub use books::find_events;

pub use orders::OrderEvent;
pub use orders::OrderEventType;
pub use orders::OrderId;
pub use orders::OrderMessage;
pub use orders::OrderPrice;
pub use orders::OrderQuote;
pub use orders::OrderSide;
pub use orders::OrderType;
pub use orders::OrderVolume;
pub use orders::OrderbookOrder;
pub use orders::PriceLevel;
pub use orders::UTCNanoSeconds;
