//! Wire message envelopes for market-data subscribers.
//!
//! One envelope type carries order book updates, OHLCV updates and
//! connection status text; prices and quantities are rendered as decimal
//! strings for the wire.

use vstd::prelude::*;
use vstd::string::*;

use crate::book::{OrderbookSnapshot, SnapshotLevel};
use crate::candles::TvBar;
use crate::fixed;

verus! {

/// One price level rendered for the wire.
pub struct WsPriceLevel {
    pub price: String,
    pub quantity: String,
    pub order_count: usize,
}

/// An order book update pushed to subscribers.
pub struct OrderbookUpdate {
    pub symbol: String,
    pub bids: Vec<WsPriceLevel>,
    pub asks: Vec<WsPriceLevel>,
    pub timestamp: i64,
}

/// An OHLCV update pushed to subscribers; the timeframe carries its wire
/// label.
pub struct OhlcvUpdate {
    pub symbol: String,
    pub timeframe: String,
    pub bar: TvBar,
    pub is_closed: bool,
}

/// Connection status text.
pub struct StatusMessage {
    pub message: String,
}

/// The unified envelope of every websocket push.
pub enum MarketDataMessage {
    Orderbook(OrderbookUpdate),
    Ohlcv(OhlcvUpdate),
    Status(StatusMessage),
}

/// A wire level is its snapshot level with both amounts rendered as
/// decimal text.
pub open spec fn ws_level_matches(w: WsPriceLevel, l: SnapshotLevel) -> bool {
    &&& w.price@ == fixed::spec_dec_chars(l.price)
    &&& w.quantity@ == fixed::spec_dec_chars(l.total_quantity)
    &&& w.order_count == l.order_count
}

fn render_levels(levels: &Vec<SnapshotLevel>) -> (r: Vec<WsPriceLevel>)
    ensures
        r@.len() == levels@.len(),
        forall|i: int| 0 <= i < r@.len() ==> ws_level_matches(#[trigger] r@[i], levels@[i]),
{
    let mut r: Vec<WsPriceLevel> = Vec::new();
    let mut i: usize = 0;
    while i < levels.len()
        invariant
            0 <= i <= levels@.len(),
            r@.len() == i as int,
            forall|q: int| 0 <= q < i as int ==> ws_level_matches(#[trigger] r@[q], levels@[q]),
        decreases levels@.len() - i,
    {
        let l = levels[i];
        r.push(
            WsPriceLevel {
                price: fixed::format_micros(l.price),
                quantity: fixed::format_micros(l.total_quantity),
                order_count: l.order_count,
            },
        );
        i = i + 1;
    }
    r
}

impl MarketDataMessage {
    /// Renders a book snapshot for the wire, every level's price and
    /// quantity as decimal text, stamped with the wall clock.
    pub fn orderbook_from_snapshot(symbol: String, snapshot: OrderbookSnapshot) -> (r: Self)
        ensures
            r matches MarketDataMessage::Orderbook(u) && {
                &&& u.symbol@ == symbol@
                &&& u.bids@.len() == snapshot.bids@.len()
                &&& forall|i: int|
                    0 <= i < u.bids@.len() ==> ws_level_matches(
                        #[trigger] u.bids@[i],
                        snapshot.bids@[i],
                    )
                &&& u.asks@.len() == snapshot.asks@.len()
                &&& forall|i: int|
                    0 <= i < u.asks@.len() ==> ws_level_matches(
                        #[trigger] u.asks@[i],
                        snapshot.asks@[i],
                    )
            },
    {
        let bids = render_levels(&snapshot.bids);
        let asks = render_levels(&snapshot.asks);
        MarketDataMessage::Orderbook(
            OrderbookUpdate { symbol, bids, asks, timestamp: crate::clock::now_millis() },
        )
    }

    /// Wraps one candle update for the wire.
    pub fn ohlcv(symbol: String, timeframe: String, bar: TvBar, is_closed: bool) -> (r: Self)
        ensures
            r matches MarketDataMessage::Ohlcv(u) && {
                &&& u.symbol@ == symbol@
                &&& u.timeframe@ == timeframe@
                &&& u.bar == bar
                &&& u.is_closed == is_closed
            },
    {
        MarketDataMessage::Ohlcv(OhlcvUpdate { symbol, timeframe, bar, is_closed })
    }

    /// Wraps connection status text.
    pub fn status(message: &str) -> (r: Self)
        ensures
            r matches MarketDataMessage::Status(m) && m.message@ == message@,
    {
        MarketDataMessage::Status(StatusMessage { message: String::from_str(message) })
    }
}

} // verus!
