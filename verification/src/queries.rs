//! Query parameters of the REST and websocket endpoints.
//!
//! The transport layer deserializes wire parameters into mirrors of these
//! types and hands the engine the plain values.

use vstd::prelude::*;

verus! {

/// Quote request: best bid and ask of one symbol.
pub struct QuoteQuery {
    pub symbol: String,
}

/// Depth request: up to `levels` price levels per side.
pub struct DepthQuery {
    pub symbol: String,
    pub levels: Option<usize>,
}

/// Symbol search request.
pub struct SearchQuery {
    pub query: String,
    pub limit: Option<usize>,
}

/// Symbol resolution request.
pub struct SymbolQuery {
    pub symbol: String,
}

/// Bar history request over a closed time range, in a wire resolution.
pub struct HistoryQuery {
    pub symbol: String,
    pub from: i64,
    pub to: i64,
    pub resolution: String,
}

/// OHLCV stream subscription: a symbol and an optional comma-separated
/// timeframe list, both defaulted by the transport when absent.
pub struct OhlcvQuery {
    pub symbol: Option<String>,
    pub timeframes: Option<String>,
}

} // verus!
