use indexer::book::{OrderInfo, OrderSide, OrderStatus, OrderbookState, SNAPSHOT_DEPTH};
use indexer::candles::TvBar;
use indexer::events::{trade_of_event, SettlementEvent};
use indexer::fixed::{format_micros, from_units, sat_add, sat_sub, SCALE};
use indexer::messages::MarketDataMessage;
use indexer::weights::{Weight, WeightInfo};

#[test]
fn saturating_arithmetic_clamps() {
    assert_eq!(sat_sub(5, 3), 2);
    assert_eq!(sat_sub(3, 5), 0);
    assert_eq!(sat_add(5, 3), 8);
    assert_eq!(sat_add(u128::MAX, 1), u128::MAX);
    assert_eq!(from_units(50_000), 50_000 * SCALE);
}

#[test]
fn micros_render_as_decimal_text() {
    assert_eq!(format_micros(0), "0");
    assert_eq!(format_micros(50_000 * SCALE), "50000");
    assert_eq!(format_micros(50_000 * SCALE + 250_000), "50000.250000");
    assert_eq!(format_micros(250_000), "0.250000");
    assert_eq!(format_micros(1), "0.000001");
    assert_eq!(format_micros(12_345_678), "12.345678");
}

#[test]
fn order_side_labels() {
    assert_eq!(OrderSide::Buy.as_label(), "Buy");
    assert_eq!(OrderSide::Sell.as_label(), "Sell");
}

#[test]
fn events_route_through_the_book() {
    let mut book = OrderbookState::new(String::from("BTC/USD"));
    book.apply_event(&SettlementEvent::OrderPlaced {
        order_id: 1,
        side: OrderSide::Buy,
        price: 50_000 * SCALE,
        quantity: 2 * SCALE,
    })
    .unwrap();
    book.apply_event(&SettlementEvent::OrderPartiallyFilled {
        order_id: 1,
        filled_quantity: 1 * SCALE,
        remaining_quantity: 1 * SCALE,
    })
    .unwrap();
    assert_eq!(book.get_order(1).unwrap().status, OrderStatus::PartiallyFilled);
    book.apply_event(&SettlementEvent::OrderFilled {
        order_id: 1,
        trader: String::from("alice"),
    })
    .unwrap();
    let order = book.get_order(1).unwrap();
    assert_eq!(order.status, OrderStatus::Filled);
    // a full fill sets the filled amount to the order's own quantity
    assert_eq!(order.filled_quantity, 2 * SCALE);
    assert!(book.get_bid_depth(10).is_empty());
    // trades and unknown events leave the book untouched
    book.apply_event(&SettlementEvent::Unrecognized).unwrap();
    book.apply_event(&SettlementEvent::TradeExecuted {
        symbol: String::from("BTC/USD"),
        price: 50_000 * SCALE,
        quantity: 1 * SCALE,
        timestamp: 100,
    })
    .unwrap();
    assert!(book.get_order(1).is_some());
}

#[test]
fn trade_extraction_stamps_the_block() {
    let trade = SettlementEvent::TradeExecuted {
        symbol: String::from("BTC/USD"),
        price: 50_000 * SCALE,
        quantity: 3 * SCALE,
        timestamp: 1_699_000_000,
    };
    let record = trade_of_event(&trade, 42).unwrap();
    assert_eq!(record.symbol, "BTC/USD");
    assert_eq!(record.price, 50_000 * SCALE);
    assert_eq!(record.quantity, 3 * SCALE);
    assert_eq!(record.timestamp, 1_699_000_000);
    assert_eq!(record.block_number, 42);
    let other = SettlementEvent::OrderCancelled {
        order_id: 1,
        trader: String::from("bob"),
    };
    assert!(trade_of_event(&other, 42).is_none());
}

#[test]
fn snapshot_renders_for_the_wire() {
    let mut book = OrderbookState::new(String::from("BTC/USD"));
    book.add_order(OrderInfo {
        order_id: 1,
        side: OrderSide::Buy,
        price: 50_000 * SCALE + 250_000,
        quantity: 2 * SCALE,
        filled_quantity: 0,
        status: OrderStatus::Open,
    })
    .unwrap();
    let snap = book.snapshot(SNAPSHOT_DEPTH, 0);
    let msg = MarketDataMessage::orderbook_from_snapshot(String::from("BTC/USD"), snap);
    match msg {
        MarketDataMessage::Orderbook(u) => {
            assert_eq!(u.symbol, "BTC/USD");
            assert_eq!(u.bids.len(), 1);
            assert_eq!(u.bids[0].price, "50000.250000");
            assert_eq!(u.bids[0].quantity, "2");
            assert_eq!(u.bids[0].order_count, 1);
            assert!(u.asks.is_empty());
        }
        _ => panic!("snapshot renders as an orderbook message"),
    }
}

#[test]
fn ohlcv_and_status_envelopes() {
    let bar = TvBar {
        time: 60,
        open: 100 * SCALE,
        high: 105 * SCALE,
        low: 98 * SCALE,
        close: 98 * SCALE,
        volume: 6 * SCALE,
    };
    match MarketDataMessage::ohlcv(String::from("ETH/USDC"), String::from("1m"), bar, true) {
        MarketDataMessage::Ohlcv(u) => {
            assert_eq!(u.symbol, "ETH/USDC");
            assert_eq!(u.timeframe, "1m");
            assert_eq!(u.bar, bar);
            assert!(u.is_closed);
        }
        _ => panic!("ohlcv wraps as an OHLCV message"),
    }
    match MarketDataMessage::status("connected") {
        MarketDataMessage::Status(s) => assert_eq!(s.message, "connected"),
        _ => panic!("status wraps as a status message"),
    }
}

#[test]
fn placeholder_weights_sum_their_shares() {
    let d = <() as WeightInfo>::deposit();
    assert_eq!(d.ref_time, 135_000);
    assert_eq!(d.proof_size, 0);
    let w = <() as WeightInfo>::withdraw();
    assert_eq!(w.ref_time, 135_000);
    let clamped = Weight::from_parts(u64::MAX, 1).saturating_add(Weight::from_parts(5, 2));
    assert_eq!(clamped.ref_time, u64::MAX);
    assert_eq!(clamped.proof_size, 3);
}
