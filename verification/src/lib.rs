//! A verified top-of-book core for a single instrument's market-data
//! feed: incremental order-book reconciliation, last-trade direction
//! tracking, and a plain-text rendering of the top of the ladder.
//!
//! Transport (the exchange connection and message decoding) is not part
//! of this crate; callers hand decoded snapshot, delta and trade events
//! to [`feed::process_event`] and write the rendered text wherever they
//! like.

pub mod book;
pub mod codec;
pub mod feed;
pub mod laws;
pub mod render;
pub mod trade;

pub use book::BookSide;
pub use book::OrderBook;
pub use book::PriceLevel;
pub use book::Side;
