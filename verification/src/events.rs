//! Decoded settlement events.
//!
//! The chain collaborator decodes wire payloads into this closed
//! tagged-variant type; the engine consumes one event at a time. An event
//! of an unknown kind is represented explicitly and ignored, never an
//! error. All amounts are fixed-point micros (see [`crate::fixed`]).

use vstd::prelude::*;

use crate::book::OrderSide;

verus! {

/// One settled event from the upstream stream.
pub enum SettlementEvent {
    OrderPlaced { order_id: u64, side: OrderSide, price: u128, quantity: u128 },
    OrderCancelled { order_id: u64, trader: String },
    OrderFilled { order_id: u64, trader: String },
    OrderPartiallyFilled { order_id: u64, filled_quantity: u128, remaining_quantity: u128 },
    TradeExecuted { symbol: String, price: u128, quantity: u128, timestamp: u64 },
    /// An event of another pallet or an unrecognized variant: ignored.
    Unrecognized,
}

/// One executed trade, ready for persistence and candle aggregation.
pub struct TradeRecord {
    pub symbol: String,
    pub price: u128,
    pub quantity: u128,
    pub timestamp: u64,
    pub block_number: u64,
}

/// Extracts the trade carried by an event, stamped with the block it was
/// settled in; any other event carries none.
pub fn trade_of_event(ev: &SettlementEvent, block_number: u64) -> (r: Option<TradeRecord>)
    ensures
        r is Some <==> *ev matches SettlementEvent::TradeExecuted { .. },
        match r {
            Some(t) => {
                &&& *ev matches SettlementEvent::TradeExecuted { symbol, price, quantity, timestamp } && {
                    &&& t.symbol@ == symbol@
                    &&& t.price == price
                    &&& t.quantity == quantity
                    &&& t.timestamp == timestamp
                }
                &&& t.block_number == block_number
            },
            None => true,
        },
{
    match ev {
        SettlementEvent::TradeExecuted { symbol, price, quantity, timestamp } => Some(
            TradeRecord {
                symbol: symbol.clone(),
                price: *price,
                quantity: *quantity,
                timestamp: *timestamp,
                block_number,
            },
        ),
        _ => None,
    }
}

} // verus!
