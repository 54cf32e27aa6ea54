use indexer::book::{OrderInfo, OrderSide, OrderStatus, OrderbookState, ReducerError, SNAPSHOT_DEPTH};
use indexer::fixed::SCALE;

fn open_order(id: u64, side: OrderSide, price_units: u64, qty_units: u64) -> OrderInfo {
    OrderInfo {
        order_id: id,
        side,
        price: price_units as u128 * SCALE,
        quantity: qty_units as u128 * SCALE,
        filled_quantity: 0,
        status: OrderStatus::Open,
    }
}

#[test]
fn placed_then_cancelled_leaves_depth_but_stays_queryable() {
    let mut book = OrderbookState::new(String::from("BTC/USD"));
    book.add_order(open_order(1, OrderSide::Buy, 50_000, 2)).unwrap();
    assert_eq!(book.get_bid_depth(10).len(), 1);
    book.cancel_order(1).unwrap();
    assert_eq!(book.get_bid_depth(10).len(), 0);
    assert_eq!(book.get_ask_depth(10).len(), 0);
    let order = book.get_order(1).expect("cancelled order stays queryable");
    assert_eq!(order.status, OrderStatus::Cancelled);
    assert_eq!(order.price, 50_000 * SCALE);
    assert_eq!(order.quantity, 2 * SCALE);
}

#[test]
fn duplicate_order_id_is_rejected_first_record_wins() {
    let mut book = OrderbookState::new(String::from("BTC/USD"));
    book.add_order(open_order(7, OrderSide::Buy, 50_000, 2)).unwrap();
    let second = book.add_order(open_order(7, OrderSide::Buy, 60_000, 5));
    assert_eq!(second, Err(ReducerError::DuplicateOrder));
    let kept = book.get_order(7).unwrap();
    assert_eq!(kept.price, 50_000 * SCALE);
    assert_eq!(kept.quantity, 2 * SCALE);
}

#[test]
fn remaining_quantity_is_quantity_minus_filled_never_negative() {
    let mut order = open_order(1, OrderSide::Buy, 10, 4);
    assert_eq!(order.remaining_quantity(), 4 * SCALE);
    order.filled_quantity = 1 * SCALE;
    assert_eq!(order.remaining_quantity(), 3 * SCALE);
    // a malformed event reporting more filled than the size clamps to zero
    order.filled_quantity = 9 * SCALE;
    assert_eq!(order.remaining_quantity(), 0);
}

#[test]
fn partial_fill_keeps_order_in_depth_with_reduced_remaining() {
    let mut book = OrderbookState::new(String::from("BTC/USD"));
    book.add_order(open_order(1, OrderSide::Buy, 50_000, 2)).unwrap();
    let filled = SCALE / 2; // 0.5 units
    book.update_order(1, filled, OrderStatus::PartiallyFilled).unwrap();
    let order = book.get_order(1).unwrap();
    assert_eq!(order.status, OrderStatus::PartiallyFilled);
    let depth = book.get_bid_depth(10);
    assert_eq!(depth, vec![(50_000 * SCALE, 1)]);
    let snap = book.snapshot(SNAPSHOT_DEPTH, 0);
    assert_eq!(snap.bids.len(), 1);
    assert_eq!(snap.bids[0].price, 50_000 * SCALE);
    assert_eq!(snap.bids[0].total_quantity, 2 * SCALE - filled);
    assert_eq!(snap.bids[0].order_count, 1);
}

#[test]
fn terminal_fill_removes_order_from_both_depths() {
    let mut book = OrderbookState::new(String::from("BTC/USD"));
    book.add_order(open_order(1, OrderSide::Buy, 50_000, 2)).unwrap();
    book.add_order(open_order(2, OrderSide::Sell, 50_010, 1)).unwrap();
    book.update_order(2, 1 * SCALE, OrderStatus::Filled).unwrap();
    for depth in [1usize, 5, 100] {
        assert!(book.get_ask_depth(depth).is_empty());
        assert_eq!(book.get_bid_depth(depth).len(), 1);
    }
    assert_eq!(book.get_order(2).unwrap().status, OrderStatus::Filled);
}

#[test]
fn spread_is_none_iff_a_side_is_empty() {
    let mut book = OrderbookState::new(String::from("BTC/USD"));
    assert_eq!(book.get_spread(), None);
    book.add_order(open_order(1, OrderSide::Buy, 50_000, 2)).unwrap();
    assert_eq!(book.get_spread(), None);
    book.add_order(open_order(2, OrderSide::Sell, 50_010, 1)).unwrap();
    assert!(book.get_spread().is_some());
    book.cancel_order(2).unwrap();
    assert_eq!(book.get_spread(), None);
}

#[test]
fn spread_is_max_bid_and_min_ask() {
    let mut book = OrderbookState::new(String::from("BTC/USD"));
    book.add_order(open_order(1, OrderSide::Buy, 49_000, 1)).unwrap();
    book.add_order(open_order(2, OrderSide::Buy, 50_000, 1)).unwrap();
    book.add_order(open_order(3, OrderSide::Buy, 48_500, 1)).unwrap();
    book.add_order(open_order(4, OrderSide::Sell, 50_200, 1)).unwrap();
    book.add_order(open_order(5, OrderSide::Sell, 50_010, 1)).unwrap();
    assert_eq!(book.get_spread(), Some((50_000 * SCALE, 50_010 * SCALE)));
}

#[test]
fn scenario_buy_then_sell_spread_and_depth() {
    let mut book = OrderbookState::new(String::from("BTC/USD"));
    book.add_order(open_order(1, OrderSide::Buy, 50_000, 2)).unwrap();
    book.add_order(open_order(2, OrderSide::Sell, 50_010, 1)).unwrap();
    assert_eq!(book.get_spread(), Some((50_000 * SCALE, 50_010 * SCALE)));
    assert_eq!(book.get_bid_depth(1), vec![(50_000 * SCALE, 1)]);
}

#[test]
fn depth_is_best_first_and_caps_at_requested_levels() {
    let mut book = OrderbookState::new(String::from("BTC/USD"));
    book.add_order(open_order(1, OrderSide::Buy, 49_000, 1)).unwrap();
    book.add_order(open_order(2, OrderSide::Buy, 50_000, 1)).unwrap();
    book.add_order(open_order(3, OrderSide::Buy, 48_000, 1)).unwrap();
    book.add_order(open_order(4, OrderSide::Buy, 50_000, 3)).unwrap();
    let depth = book.get_bid_depth(2);
    assert_eq!(depth, vec![(50_000 * SCALE, 2), (49_000 * SCALE, 1)]);
    let full = book.get_bid_depth(100);
    assert_eq!(
        full,
        vec![(50_000 * SCALE, 2), (49_000 * SCALE, 1), (48_000 * SCALE, 1)]
    );
}

#[test]
fn unknown_order_id_reports_not_found() {
    let mut book = OrderbookState::new(String::from("BTC/USD"));
    assert_eq!(book.cancel_order(99), Err(ReducerError::NotFound));
    assert_eq!(
        book.update_order(99, 0, OrderStatus::Filled),
        Err(ReducerError::NotFound)
    );
    assert!(book.get_order(99).is_none());
}

#[test]
fn quote_summarises_best_levels() {
    let mut book = OrderbookState::new(String::from("BTC/USD"));
    assert!(book.quote().is_none());
    book.add_order(open_order(1, OrderSide::Buy, 50_000, 2)).unwrap();
    book.add_order(open_order(2, OrderSide::Buy, 50_000, 1)).unwrap();
    book.add_order(open_order(3, OrderSide::Sell, 50_010, 1)).unwrap();
    let q = book.quote().unwrap();
    assert_eq!(q.bid, 50_000 * SCALE);
    assert_eq!(q.ask, 50_010 * SCALE);
    assert_eq!(q.spread, 10 * SCALE);
    assert_eq!(q.mid_price, 50_005 * SCALE);
    assert_eq!(q.bid_orders, 2);
    assert_eq!(q.ask_orders, 1);
}

#[test]
fn snapshot_carries_symbol_best_prices_and_timestamp() {
    let mut book = OrderbookState::new(String::from("BTC/USD"));
    book.add_order(open_order(1, OrderSide::Buy, 50_000, 2)).unwrap();
    book.add_order(open_order(2, OrderSide::Sell, 50_010, 1)).unwrap();
    let snap = book.snapshot(SNAPSHOT_DEPTH, 1_699_000_000_123);
    assert_eq!(snap.symbol, "BTC/USD");
    assert_eq!(snap.best_bid, Some(50_000 * SCALE));
    assert_eq!(snap.best_ask, Some(50_010 * SCALE));
    assert_eq!(snap.spread, Some(10 * SCALE));
    assert_eq!(snap.mid_price, Some(50_005 * SCALE));
    assert_eq!(snap.timestamp, 1_699_000_000_123);
}

#[test]
fn reactivated_order_rejoins_at_the_back_of_its_level() {
    let mut book = OrderbookState::new(String::from("BTC/USD"));
    book.add_order(open_order(1, OrderSide::Buy, 50_000, 1)).unwrap();
    book.add_order(open_order(2, OrderSide::Buy, 50_000, 1)).unwrap();
    assert_eq!(book.bids[0].orders, vec![1, 2]);
    book.update_order(1, 1 * SCALE, OrderStatus::Filled).unwrap();
    assert_eq!(book.bids[0].orders, vec![2]);
    // an order turned active again re-enters at the back of the queue
    book.update_order(1, 0, OrderStatus::Open).unwrap();
    assert_eq!(book.bids[0].orders, vec![2, 1]);
}

#[test]
fn empty_book_snapshot_is_explicitly_empty() {
    let book = OrderbookState::new(String::from("BTC/USD"));
    let snap = book.snapshot(SNAPSHOT_DEPTH, 7);
    assert!(snap.bids.is_empty());
    assert!(snap.asks.is_empty());
    assert_eq!(snap.best_bid, None);
    assert_eq!(snap.best_ask, None);
    assert_eq!(snap.spread, None);
    assert_eq!(snap.mid_price, None);
    assert_eq!(snap.timestamp, 7);
}

#[test]
fn time_priority_is_arrival_order_within_a_level() {
    let mut book = OrderbookState::new(String::from("BTC/USD"));
    book.add_order(open_order(3, OrderSide::Sell, 50_010, 1)).unwrap();
    book.add_order(open_order(1, OrderSide::Sell, 50_010, 1)).unwrap();
    book.add_order(open_order(2, OrderSide::Sell, 50_010, 1)).unwrap();
    assert_eq!(book.asks[0].orders, vec![3, 1, 2]);
}
