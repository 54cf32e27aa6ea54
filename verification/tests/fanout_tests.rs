use indexer::book::{OrderInfo, OrderSide, OrderStatus, OrderbookState};
use indexer::candles::CandleAggregator;
use indexer::fanout::{Fanout, RecvError};
use indexer::fixed::SCALE;

#[test]
fn messages_arrive_in_publication_order() {
    let mut ch: Fanout<u64> = Fanout::new(8);
    let mut sub = ch.subscribe();
    ch.publish(10);
    ch.publish(11);
    ch.publish(12);
    assert_eq!(sub.recv(&ch), Ok(&10));
    assert_eq!(sub.recv(&ch), Ok(&11));
    assert_eq!(sub.recv(&ch), Ok(&12));
    assert_eq!(sub.recv(&ch), Err(RecvError::Empty));
}

#[test]
fn lag_is_reported_once_with_exact_count_then_delivery_resumes() {
    let mut ch: Fanout<u64> = Fanout::new(3);
    let mut sub = ch.subscribe();
    for v in 0..5u64 {
        ch.publish(v);
    }
    // five messages were published, three are retained: the subscriber
    // missed exactly two, hears so once, and resumes from the oldest
    // retained message without error
    assert_eq!(sub.recv(&ch), Err(RecvError::Lagged(2)));
    assert_eq!(sub.recv(&ch), Ok(&2));
    assert_eq!(sub.recv(&ch), Ok(&3));
    assert_eq!(sub.recv(&ch), Ok(&4));
    assert_eq!(sub.recv(&ch), Err(RecvError::Empty));
}

#[test]
fn late_subscriber_sees_only_later_messages() {
    let mut ch: Fanout<u64> = Fanout::new(4);
    ch.publish(1);
    let mut sub = ch.subscribe();
    assert_eq!(sub.recv(&ch), Err(RecvError::Empty));
    ch.publish(2);
    assert_eq!(sub.recv(&ch), Ok(&2));
}

#[test]
fn independent_subscribers_have_independent_cursors() {
    let mut ch: Fanout<u64> = Fanout::new(4);
    let mut a = ch.subscribe();
    let mut b = ch.subscribe();
    ch.publish(7);
    assert_eq!(a.recv(&ch), Ok(&7));
    assert_eq!(a.recv(&ch), Err(RecvError::Empty));
    assert_eq!(b.recv(&ch), Ok(&7));
}

#[test]
fn book_mutations_broadcast_fresh_snapshots() {
    let channel = Fanout::new(16);
    let mut book = OrderbookState::with_broadcast(String::from("BTC/USD"), channel);
    let mut sub = match &book.publish {
        Some(ch) => ch.subscribe(),
        None => panic!("publish handle must be attached"),
    };
    book.add_order(OrderInfo {
        order_id: 1,
        side: OrderSide::Buy,
        price: 50_000 * SCALE,
        quantity: 2 * SCALE,
        filled_quantity: 0,
        status: OrderStatus::Open,
    })
    .unwrap();
    let snap = match &book.publish {
        Some(ch) => sub.recv(ch).expect("one snapshot per mutation"),
        None => panic!("publish handle must be attached"),
    };
    assert_eq!(snap.symbol, "BTC/USD");
    assert_eq!(snap.best_bid, Some(50_000 * SCALE));
    assert_eq!(snap.best_ask, None);
    assert_eq!(snap.bids.len(), 1);
}

#[test]
fn aggregator_broadcasts_every_update() {
    let channel = Fanout::new(64);
    let mut agg = CandleAggregator::with_broadcast(channel);
    let sym = String::from("ETH/USDC");
    let mut sub = match &agg.publish {
        Some(ch) => ch.subscribe(),
        None => panic!("publish handle must be attached"),
    };
    let updates = agg.process_trade(&sym, 2_000 * SCALE, 1 * SCALE, 100);
    assert_eq!(updates.len(), 6);
    for expected in &updates {
        let got = match &agg.publish {
            Some(ch) => sub.recv(ch).expect("published update"),
            None => panic!("publish handle must be attached"),
        };
        assert_eq!(got.symbol, expected.symbol);
        assert_eq!(got.timeframe, expected.timeframe);
        assert_eq!(got.bar, expected.bar);
        assert_eq!(got.is_closed, expected.is_closed);
    }
}

#[test]
fn capacity_one_channel_retains_only_the_newest_message() {
    let mut ch: Fanout<u64> = Fanout::new(1);
    let mut sub = ch.subscribe();
    ch.publish(1);
    ch.publish(2);
    ch.publish(3);
    assert_eq!(sub.recv(&ch), Err(RecvError::Lagged(2)));
    assert_eq!(sub.recv(&ch), Ok(&3));
    assert_eq!(sub.recv(&ch), Err(RecvError::Empty));
}
