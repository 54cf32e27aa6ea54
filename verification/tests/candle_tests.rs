use indexer::candles::{CandleAggregator, Timeframe, update_passes_filter};
use indexer::fixed::SCALE;

#[test]
fn timeframe_widths_and_labels() {
    assert_eq!(Timeframe::M1.width_secs(), 60);
    assert_eq!(Timeframe::M5.width_secs(), 300);
    assert_eq!(Timeframe::M15.width_secs(), 900);
    assert_eq!(Timeframe::H1.width_secs(), 3600);
    assert_eq!(Timeframe::H4.width_secs(), 14400);
    assert_eq!(Timeframe::D1.width_secs(), 86400);
    assert_eq!(Timeframe::M1.label(), "1m");
    assert_eq!(Timeframe::D1.label(), "1D");
}

#[test]
fn first_trade_opens_one_bar_per_timeframe() {
    let mut agg = CandleAggregator::new();
    let sym = String::from("ETH/USDC");
    let updates = agg.process_trade(&sym, 2_000 * SCALE, 3 * SCALE, 100);
    assert_eq!(updates.len(), 6);
    for u in &updates {
        assert_eq!(u.symbol, "ETH/USDC");
        assert!(!u.is_closed);
        assert_eq!(u.bar.open, 2_000 * SCALE);
        assert_eq!(u.bar.close, 2_000 * SCALE);
        assert_eq!(u.bar.volume, 3 * SCALE);
    }
    // bucket starts: floor(100 / width) * width
    assert_eq!(updates[0].timeframe, Timeframe::M1);
    assert_eq!(updates[0].bar.time, 60);
    assert_eq!(updates[1].bar.time, 0);
    assert_eq!(agg.last_trade_ts, 100);
}

#[test]
fn rollover_emits_close_then_open_in_order() {
    let mut agg = CandleAggregator::new();
    let sym = String::from("ETH/USDC");
    agg.process_trade(&sym, 2_000 * SCALE, 1 * SCALE, 100);
    let updates = agg.process_trade(&sym, 2_050 * SCALE, 2 * SCALE, 140);
    // the one-minute slot rolls over from bucket [60,120) to [120,180):
    // its close comes first, then the open of the new bucket
    assert_eq!(updates[0].timeframe, Timeframe::M1);
    assert!(updates[0].is_closed);
    assert_eq!(updates[0].bar.time, 60);
    assert_eq!(updates[0].bar.close, 2_000 * SCALE);
    assert_eq!(updates[1].timeframe, Timeframe::M1);
    assert!(!updates[1].is_closed);
    assert_eq!(updates[1].bar.time, 120);
    assert_eq!(updates[1].bar.open, 2_050 * SCALE);
    // every other timeframe stays in its bucket: one update each
    assert_eq!(updates.len(), 7);
    for u in &updates[2..] {
        assert!(!u.is_closed);
    }
    // the closed bar is retained in history
    assert_eq!(agg.markets[0].slots[0].closed.len(), 1);
    assert_eq!(agg.markets[0].slots[0].closed[0].time, 60);
}

#[test]
fn same_bucket_trades_fold_into_ohlcv() {
    let mut agg = CandleAggregator::new();
    let sym = String::from("ETH/USDC");
    agg.process_trade(&sym, 100 * SCALE, 1 * SCALE, 10);
    agg.process_trade(&sym, 105 * SCALE, 2 * SCALE, 20);
    let updates = agg.process_trade(&sym, 98 * SCALE, 3 * SCALE, 30);
    assert_eq!(updates.len(), 6);
    let bar = agg.markets[0].slots[0].open_bar.unwrap();
    assert_eq!(bar.open, 100 * SCALE);
    assert_eq!(bar.high, 105 * SCALE);
    assert_eq!(bar.low, 98 * SCALE);
    assert_eq!(bar.close, 98 * SCALE);
    assert_eq!(bar.volume, 6 * SCALE);
}

#[test]
fn symbols_are_aggregated_independently() {
    let mut agg = CandleAggregator::new();
    let eth = String::from("ETH/USDC");
    let btc = String::from("BTC/USD");
    agg.process_trade(&eth, 2_000 * SCALE, 1 * SCALE, 10);
    agg.process_trade(&btc, 50_000 * SCALE, 1 * SCALE, 20);
    assert_eq!(agg.markets.len(), 2);
    assert_eq!(agg.markets[0].symbol, "ETH/USDC");
    assert_eq!(agg.markets[1].symbol, "BTC/USD");
    assert_eq!(agg.markets[0].slots[0].open_bar.unwrap().close, 2_000 * SCALE);
    assert_eq!(agg.markets[1].slots[0].open_bar.unwrap().close, 50_000 * SCALE);
}

#[test]
fn filter_matches_symbol_and_timeframe_subset() {
    let mut agg = CandleAggregator::new();
    let sym = String::from("ETH/USDC");
    let updates = agg.process_trade(&sym, 2_000 * SCALE, 1 * SCALE, 100);
    let m1_only = Some(vec![Timeframe::M1]);
    let passes: Vec<bool> = updates
        .iter()
        .map(|u| update_passes_filter(u, &sym, &m1_only))
        .collect();
    assert_eq!(passes, vec![true, false, false, false, false, false]);
    let other = String::from("BTC/USD");
    assert!(!update_passes_filter(&updates[0], &other, &None));
    assert!(update_passes_filter(&updates[0], &sym, &None));
}
