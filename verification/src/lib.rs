//! Market-state engine for a settled order-flow stream.
//!
//! The crate turns a sequential stream of settlement events (orders placed,
//! cancelled, filled or partially filled, trades executed) into a live,
//! queryable limit order book and multi-timeframe OHLCV bar history.
//! Matching happens upstream; this engine only mirrors settled outcomes.

pub mod book;
pub mod candles;
pub(crate) mod clock;
pub mod events;
pub mod fanout;
pub mod fixed;
pub mod messages;
pub mod queries;
pub mod weights;
