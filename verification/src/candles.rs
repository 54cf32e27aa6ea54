//! Multi-timeframe OHLCV aggregation.
//!
//! [`CandleAggregator`] consumes executed trades and maintains, per
//! market symbol and per timeframe, the currently open bar and a bounded
//! history of closed bars. Every trade yields one update per timeframe
//! when it lands in the open bucket, or a close-then-open pair when it
//! crosses into a new bucket. Trade timestamps are assumed non-decreasing
//! (the stream replays finalized events in order); that assumption is a
//! documented precondition, not a guess about out-of-order behaviour.

use vstd::prelude::*;

use crate::fanout::Fanout;
use crate::fixed;

verus! {

/// The fixed, enumerated timeframe set.
#[derive(Clone, Copy, PartialEq, Eq, Structural, Debug)]
pub enum Timeframe {
    M1,
    M5,
    M15,
    H1,
    H4,
    D1,
}

impl Timeframe {
    /// Bucket width in seconds.
    pub open spec fn spec_width(self) -> u64 {
        match self {
            Timeframe::M1 => 60,
            Timeframe::M5 => 300,
            Timeframe::M15 => 900,
            Timeframe::H1 => 3600,
            Timeframe::H4 => 14400,
            Timeframe::D1 => 86400,
        }
    }

    pub fn width_secs(self) -> (r: u64)
        ensures
            r == self.spec_width(),
            r > 0,
    {
        match self {
            Timeframe::M1 => 60,
            Timeframe::M5 => 300,
            Timeframe::M15 => 900,
            Timeframe::H1 => 3600,
            Timeframe::H4 => 14400,
            Timeframe::D1 => 86400,
        }
    }

    /// The wire label of the timeframe.
    pub open spec fn spec_label(self) -> Seq<char> {
        match self {
            Timeframe::M1 => "1m"@,
            Timeframe::M5 => "5m"@,
            Timeframe::M15 => "15m"@,
            Timeframe::H1 => "1h"@,
            Timeframe::H4 => "4h"@,
            Timeframe::D1 => "1D"@,
        }
    }

    pub fn label(self) -> (r: &'static str)
        ensures
            r@ == self.spec_label(),
    {
        match self {
            Timeframe::M1 => "1m",
            Timeframe::M5 => "5m",
            Timeframe::M15 => "15m",
            Timeframe::H1 => "1h",
            Timeframe::H4 => "4h",
            Timeframe::D1 => "1D",
        }
    }
}

/// All timeframes, in slot order.
pub open spec fn spec_timeframes() -> Seq<Timeframe> {
    seq![
        Timeframe::M1,
        Timeframe::M5,
        Timeframe::M15,
        Timeframe::H1,
        Timeframe::H4,
        Timeframe::D1,
    ]
}

pub fn all_timeframes() -> (r: Vec<Timeframe>)
    ensures
        r@ == spec_timeframes(),
{
    let mut v: Vec<Timeframe> = Vec::new();
    v.push(Timeframe::M1);
    v.push(Timeframe::M5);
    v.push(Timeframe::M15);
    v.push(Timeframe::H1);
    v.push(Timeframe::H4);
    v.push(Timeframe::D1);
    proof {
        assert(v@ =~= spec_timeframes());
    }
    v
}

/// Start of the bucket `ts` falls in, for a bucket width in seconds.
pub open spec fn spec_bucket_start(ts: u64, width: u64) -> int
    recommends
        width > 0,
{
    (ts as int / width as int) * (width as int)
}

pub fn bucket_start(ts: u64, width: u64) -> (r: u64)
    requires
        width > 0,
    ensures
        r == spec_bucket_start(ts, width),
        r <= ts,
        r % width == 0,
{
    proof {
        let x = ts as int;
        let d = width as int;
        assert(0 <= (x / d) * d <= x) by (nonlinear_arith)
            requires
                d > 0,
                x >= 0,
        ;
        vstd::arithmetic::div_mod::lemma_mod_multiples_basic(x / d, d);
    }
    (ts / width) * width
}

/// A bucket start is a timestamp itself: it never precedes zero nor
/// exceeds the trade's own timestamp.
proof fn lemma_bucket_range(ts: u64, width: u64)
    requires
        width > 0,
    ensures
        0 <= spec_bucket_start(ts, width) <= ts,
{
    let x = ts as int;
    let d = width as int;
    assert(0 <= (x / d) * d <= x) by (nonlinear_arith)
        requires
            d > 0,
            x >= 0,
    ;
}

/// Bucket starts never move backwards as time advances.
proof fn lemma_bucket_monotone(t1: u64, t2: u64, width: u64)
    requires
        width > 0,
        t1 <= t2,
    ensures
        spec_bucket_start(t1, width) <= spec_bucket_start(t2, width),
{
    vstd::arithmetic::div_mod::lemma_div_is_ordered(t1 as int, t2 as int, width as int);
    vstd::arithmetic::mul::lemma_mul_inequality(
        t1 as int / width as int,
        t2 as int / width as int,
        width as int,
    );
}

/// One OHLCV bar. `time` is the bucket start in seconds; prices and the
/// volume are fixed-point micros. A bar is mutable while open and
/// immutable once closed.
#[derive(Clone, Copy, PartialEq, Eq, Structural, Debug)]
pub struct TvBar {
    pub time: u64,
    pub open: u128,
    pub high: u128,
    pub low: u128,
    pub close: u128,
    pub volume: u128,
}

/// A bar opened by the first trade of its bucket.
pub open spec fn spec_new_bar(bucket: u64, price: u128, qty: u128) -> TvBar {
    TvBar { time: bucket, open: price, high: price, low: price, close: price, volume: qty }
}

/// An open bar folded with one more trade of its bucket.
pub open spec fn spec_bar_update(b: TvBar, price: u128, qty: u128) -> TvBar {
    TvBar {
        time: b.time,
        open: b.open,
        high: if price > b.high {
            price
        } else {
            b.high
        },
        low: if price < b.low {
            price
        } else {
            b.low
        },
        close: price,
        volume: fixed::spec_sat_add(b.volume, qty),
    }
}

/// The open bar of a slot after one trade whose bucket starts at
/// `bucket`: folded in place when the bucket matches, else a fresh bar.
pub open spec fn spec_bar_after(ob: Option<TvBar>, bucket: u64, price: u128, qty: u128) -> TvBar {
    match ob {
        Some(b) => if b.time == bucket {
            spec_bar_update(b, price, qty)
        } else {
            spec_new_bar(bucket, price, qty)
        },
        None => spec_new_bar(bucket, price, qty),
    }
}

/// The updates one trade yields for one timeframe, in emission order:
/// crossing into a new bucket closes the old bar first and then opens the
/// new one; otherwise the open bar is updated in place.
pub open spec fn spec_slot_updates(
    tf: Timeframe,
    ob: Option<TvBar>,
    bucket: u64,
    price: u128,
    qty: u128,
) -> Seq<(Timeframe, TvBar, bool)> {
    match ob {
        Some(b) => if b.time != bucket {
            seq![(tf, b, true), (tf, spec_new_bar(bucket, price, qty), false)]
        } else {
            seq![(tf, spec_bar_update(b, price, qty), false)]
        },
        None => seq![(tf, spec_new_bar(bucket, price, qty), false)],
    }
}

/// Closed-bar history after one trade: a closing bar is appended, the
/// oldest falling out once the bounded history is full.
pub open spec fn spec_closed_after(closed: Seq<TvBar>, ob: Option<TvBar>, bucket: u64) -> Seq<
    TvBar,
> {
    match ob {
        Some(b) => if b.time != bucket {
            (if closed.len() >= CLOSED_BARS_CAP {
                closed.drop_first()
            } else {
                closed
            }).push(b)
        } else {
            closed
        },
        None => closed,
    }
}

/// Most closed bars kept per (symbol, timeframe).
pub const CLOSED_BARS_CAP: usize = 500;

/// The per-timeframe state for one symbol.
pub struct TimeframeSlot {
    pub timeframe: Timeframe,
    /// The bar of the newest bucket a trade has landed in, if any.
    pub open_bar: Option<TvBar>,
    /// Closed bars, oldest first, at most `CLOSED_BARS_CAP`.
    pub closed: Vec<TvBar>,
}

/// All candle state for one market symbol.
pub struct SymbolCandles {
    pub symbol: String,
    /// One slot per timeframe, in `spec_timeframes()` order.
    pub slots: Vec<TimeframeSlot>,
}

/// The envelope emitted per trade per timeframe.
pub struct CandleUpdate {
    pub symbol: String,
    pub timeframe: Timeframe,
    pub bar: TvBar,
    /// True exactly for the close of a bar whose bucket a later trade
    /// moved past.
    pub is_closed: bool,
}

impl CandleUpdate {
    /// A value-equal copy, handed to the publish channel.
    pub fn dup(&self) -> (r: Self)
        ensures
            r == *self,
    {
        CandleUpdate {
            symbol: self.symbol.clone(),
            timeframe: self.timeframe,
            bar: self.bar,
            is_closed: self.is_closed,
        }
    }
}

/// One abstract update (timeframe, bar, closed flag) realized by a
/// concrete envelope for `symbol`.
pub open spec fn update_matches(
    u: CandleUpdate,
    symbol: Seq<char>,
    a: (Timeframe, TvBar, bool),
) -> bool {
    &&& u.symbol@ == symbol
    &&& u.timeframe == a.0
    &&& u.bar == a.1
    &&& u.is_closed == a.2
}

/// The open-bar view of a slot sequence: timeframe and open bar only.
pub open spec fn slots_view(slots: Seq<TimeframeSlot>) -> Seq<(Timeframe, Option<TvBar>)> {
    Seq::new(slots.len(), |i: int| (slots[i].timeframe, slots[i].open_bar))
}

/// The closed-history view of a slot sequence.
pub open spec fn closed_view(slots: Seq<TimeframeSlot>) -> Seq<Seq<TvBar>> {
    Seq::new(slots.len(), |i: int| slots[i].closed@)
}

/// The view of a symbol not yet traded: every slot empty.
pub open spec fn fresh_slots_view() -> Seq<(Timeframe, Option<TvBar>)> {
    Seq::new(spec_timeframes().len(), |i: int| (spec_timeframes()[i], None::<TvBar>))
}

pub open spec fn fresh_closed_view() -> Seq<Seq<TvBar>> {
    Seq::new(spec_timeframes().len(), |i: int| Seq::<TvBar>::empty())
}

/// All updates one trade yields across the slots of `sv`, slot order
/// kept, each slot contributing its one or two updates consecutively.
pub open spec fn spec_trade_updates(
    sv: Seq<(Timeframe, Option<TvBar>)>,
    price: u128,
    qty: u128,
    ts: u64,
) -> Seq<(Timeframe, TvBar, bool)>
    decreases sv.len(),
{
    if sv.len() == 0 {
        Seq::empty()
    } else {
        let last = sv.last();
        spec_trade_updates(sv.drop_last(), price, qty, ts) + spec_slot_updates(
            last.0,
            last.1,
            spec_bucket_start(ts, last.0.spec_width()) as u64,
            price,
            qty,
        )
    }
}

/// What one trade does to one market's candle state.
pub open spec fn market_advanced(
    pre_sv: Seq<(Timeframe, Option<TvBar>)>,
    pre_closed: Seq<Seq<TvBar>>,
    post: SymbolCandles,
    symbol: Seq<char>,
    price: u128,
    qty: u128,
    ts: u64,
) -> bool {
    &&& post.symbol@ == symbol
    &&& post.slots@.len() == pre_sv.len()
    &&& pre_closed.len() == pre_sv.len()
    &&& forall|i: int|
        #![trigger post.slots@[i]]
        0 <= i < pre_sv.len() ==> {
            let tf = pre_sv[i].0;
            let bucket = spec_bucket_start(ts, tf.spec_width()) as u64;
            &&& post.slots@[i].timeframe == tf
            &&& post.slots@[i].open_bar == Some(spec_bar_after(pre_sv[i].1, bucket, price, qty))
            &&& post.slots@[i].closed@ == spec_closed_after(pre_closed[i], pre_sv[i].1, bucket)
        }
}

/// The subscriber-side filter of the OHLCV stream: an update passes when
/// its symbol matches the subscription and, if a timeframe list was
/// given, its timeframe is listed.
pub fn update_passes_filter(
    update: &CandleUpdate,
    symbol_filter: &String,
    timeframes: &Option<Vec<Timeframe>>,
) -> (r: bool)
    ensures
        r == (update.symbol@ == symbol_filter@ && match *timeframes {
            Some(tfs) => tfs@.contains(update.timeframe),
            None => true,
        }),
{
    if !(update.symbol == *symbol_filter) {
        return false;
    }
    match timeframes {
        Some(tfs) => {
            let mut i: usize = 0;
            while i < tfs.len()
                invariant
                    update.symbol@ == symbol_filter@,
                    *timeframes == Some(*tfs),
                    0 <= i <= tfs@.len(),
                    forall|q: int| 0 <= q < i as int ==> tfs@[q] != update.timeframe,
                decreases tfs@.len() - i,
            {
                if tfs[i] == update.timeframe {
                    proof {
                        assert(tfs@[i as int] == update.timeframe);
                    }
                    return true;
                }
                i = i + 1;
            }
            false
        },
        None => true,
    }
}

pub open spec fn has_market(ms: Seq<SymbolCandles>, symbol: Seq<char>) -> bool {
    exists|m: int| 0 <= m < ms.len() && ms[m].symbol@ == symbol
}

pub open spec fn market_index(ms: Seq<SymbolCandles>, symbol: Seq<char>) -> int {
    choose|m: int| 0 <= m < ms.len() && ms[m].symbol@ == symbol
}

fn fresh_slots() -> (r: Vec<TimeframeSlot>)
    ensures
        slots_view(r@) == fresh_slots_view(),
        closed_view(r@) == fresh_closed_view(),
        r@.len() == spec_timeframes().len(),
{
    let tfs = all_timeframes();
    let mut r: Vec<TimeframeSlot> = Vec::new();
    let mut i: usize = 0;
    while i < tfs.len()
        invariant
            tfs@ == spec_timeframes(),
            0 <= i <= tfs@.len(),
            r@.len() == i as int,
            forall|q: int|
                #![trigger r@[q]]
                0 <= q < i as int ==> {
                    &&& r@[q].timeframe == spec_timeframes()[q]
                    &&& r@[q].open_bar is None
                    &&& r@[q].closed@ == Seq::<TvBar>::empty()
                },
        decreases tfs@.len() - i,
    {
        let tf = tfs[i];
        r.push(TimeframeSlot { timeframe: tf, open_bar: None, closed: Vec::new() });
        i = i + 1;
    }
    proof {
        assert(slots_view(r@) =~= fresh_slots_view());
        assert(closed_view(r@) =~= fresh_closed_view());
    }
    r
}

/// The aggregator: one slot set per traded symbol, plus an optional
/// publish handle for per-trade candle updates.
pub struct CandleAggregator {
    pub markets: Vec<SymbolCandles>,
    /// Timestamp of the newest trade consumed; later trades must not
    /// precede it (non-decreasing stream assumption).
    pub last_trade_ts: u64,
    /// Fire-and-forget publish handle; the aggregator never tracks its
    /// subscribers.
    pub publish: Option<Fanout<CandleUpdate>>,
}

impl CandleAggregator {
    /// Every open bar sits at a bucket start no later than the bucket of
    /// the newest consumed trade, and closed histories stay bounded.
    pub open spec fn slot_ok(&self, slot: TimeframeSlot) -> bool {
        &&& slot.closed@.len() <= CLOSED_BARS_CAP
        &&& match slot.open_bar {
            Some(b) => {
                &&& b.time % slot.timeframe.spec_width() == 0
                &&& b.time <= spec_bucket_start(self.last_trade_ts, slot.timeframe.spec_width())
            },
            None => true,
        }
    }

    pub open spec fn market_ok(&self, m: SymbolCandles) -> bool {
        &&& m.slots@.len() == spec_timeframes().len()
        &&& forall|i: int|
            #![trigger m.slots@[i]]
            0 <= i < m.slots@.len() ==> {
                &&& m.slots@[i].timeframe == spec_timeframes()[i]
                &&& self.slot_ok(m.slots@[i])
            }
    }

    pub open spec fn wf(&self) -> bool {
        &&& forall|mm: int|
            0 <= mm < self.markets@.len() ==> self.market_ok(#[trigger] self.markets@[mm])
        &&& forall|m1: int, m2: int|
            #![trigger self.markets@[m1].symbol, self.markets@[m2].symbol]
            0 <= m1 < m2 < self.markets@.len() ==> self.markets@[m1].symbol@
                != self.markets@[m2].symbol@
        &&& match self.publish {
            Some(c) => c.wf(),
            None => true,
        }
    }

    /// An aggregator with no publish handle.
    pub fn new() -> (r: Self)
        ensures
            r.wf(),
            r.markets@ == Seq::<SymbolCandles>::empty(),
            r.last_trade_ts == 0,
            r.publish is None,
    {
        CandleAggregator { markets: Vec::new(), last_trade_ts: 0, publish: None }
    }

    /// An aggregator that broadcasts every emitted update.
    pub fn with_broadcast(channel: Fanout<CandleUpdate>) -> (r: Self)
        requires
            channel.wf(),
        ensures
            r.wf(),
            r.markets@ == Seq::<SymbolCandles>::empty(),
            r.last_trade_ts == 0,
            r.publish == Some(channel),
    {
        CandleAggregator { markets: Vec::new(), last_trade_ts: 0, publish: Some(channel) }
    }

    /// Consumes one executed trade: for every timeframe of the traded
    /// symbol, folds the trade into the open bucket's bar or rolls over
    /// into a new bucket (closing the old bar first), returns the emitted
    /// updates in order, and broadcasts them when a handle is attached.
    pub fn process_trade(
        &mut self,
        symbol: &String,
        price: u128,
        quantity: u128,
        timestamp: u64,
    ) -> (r: Vec<CandleUpdate>)
        requires
            old(self).wf(),
            timestamp >= old(self).last_trade_ts,
        ensures
            final(self).wf(),
            final(self).last_trade_ts == timestamp,
            ({
                let pre_sv = if has_market(old(self).markets@, symbol@) {
                    slots_view(
                        old(self).markets@[market_index(old(self).markets@, symbol@)].slots@,
                    )
                } else {
                    fresh_slots_view()
                };
                let abs = spec_trade_updates(pre_sv, price, quantity, timestamp);
                &&& r@.len() == abs.len()
                &&& forall|k: int|
                    0 <= k < abs.len() ==> update_matches(#[trigger] r@[k], symbol@, abs[k])
            }),
            match (old(self).publish, final(self).publish) {
                (Some(c0), Some(c1)) => Fanout::multi_publish_effect(c0, c1, r@),
                (None, None) => true,
                _ => false,
            },
            if has_market(old(self).markets@, symbol@) {
                let m = market_index(old(self).markets@, symbol@);
                &&& final(self).markets@.len() == old(self).markets@.len()
                &&& forall|mm: int|
                    0 <= mm < old(self).markets@.len() && mm != m ==> final(self).markets@[mm]
                        == old(self).markets@[mm]
                &&& market_advanced(
                    slots_view(old(self).markets@[m].slots@),
                    closed_view(old(self).markets@[m].slots@),
                    final(self).markets@[m],
                    symbol@,
                    price,
                    quantity,
                    timestamp,
                )
            } else {
                &&& final(self).markets@.len() == old(self).markets@.len() + 1
                &&& forall|mm: int|
                    0 <= mm < old(self).markets@.len() ==> final(self).markets@[mm] == old(
                        self,
                    ).markets@[mm]
                &&& market_advanced(
                    fresh_slots_view(),
                    fresh_closed_view(),
                    final(self).markets@[old(self).markets@.len() as int],
                    symbol@,
                    price,
                    quantity,
                    timestamp,
                )
            },
    {
        let ghost pre = *old(self);
        // locate this symbol's entry, or create it on its first trade
        let count = self.markets.len();
        let mut m: usize = 0;
        while m < count && !(self.markets[m].symbol == *symbol)
            invariant
                *self == pre,
                count == self.markets@.len(),
                0 <= m <= count,
                forall|q: int| 0 <= q < m ==> self.markets@[q].symbol@ != symbol@,
            decreases count - m,
        {
            m = m + 1;
        }
        let ghost existed = (m as int) < (count as int);
        proof {
            if existed {
                assert(has_market(pre.markets@, symbol@));
                let mi = market_index(pre.markets@, symbol@);
                if mi != m as int {
                    assert(pre.markets@[mi].symbol@ == pre.markets@[m as int].symbol@);
                }
                assert(market_index(pre.markets@, symbol@) == m as int);
            } else {
                if has_market(pre.markets@, symbol@) {
                    let mi = market_index(pre.markets@, symbol@);
                    assert(pre.markets@[mi].symbol@ != symbol@);
                }
            }
        }
        if m == count {
            let slots = fresh_slots();
            self.markets.push(SymbolCandles { symbol: symbol.clone(), slots });
        }
        let mut market = self.markets.remove(m);
        let ghost pre_sv = slots_view(market.slots@);
        let ghost pre_closed = closed_view(market.slots@);
        let ghost orig_slots = market.slots@;
        proof {
            if existed {
                assert(pre_sv == slots_view(pre.markets@[m as int].slots@));
                assert(pre_closed == closed_view(pre.markets@[m as int].slots@));
            } else {
                assert(pre_sv == fresh_slots_view());
                assert(pre_closed == fresh_closed_view());
            }
            assert(pre_sv.len() == spec_timeframes().len());
            assert forall|q: int| 0 <= q < orig_slots.len() implies #[trigger] orig_slots[q].closed@.len()
                <= CLOSED_BARS_CAP by {
                if existed {
                    assert(pre.market_ok(pre.markets@[m as int]));
                    assert(pre.slot_ok(pre.markets@[m as int].slots@[q]));
                } else {
                    assert(closed_view(orig_slots)[q] == orig_slots[q].closed@);
                }
            };
        }
        let mut updates: Vec<CandleUpdate> = Vec::new();
        let nslots = market.slots.len();
        let mut i: usize = 0;
        while i < nslots
            invariant
                nslots == orig_slots.len(),
                market.slots@.len() == orig_slots.len(),
                pre_sv == slots_view(orig_slots),
                pre_closed == closed_view(orig_slots),
                pre_sv.len() == orig_slots.len(),
                market.symbol@ == symbol@,
                0 <= i <= nslots,
                forall|q: int|
                    #![trigger market.slots@[q]]
                    i as int <= q < nslots ==> market.slots@[q] == orig_slots[q],
                forall|q: int|
                    #![trigger market.slots@[q]]
                    0 <= q < i as int ==> {
                        let tf = pre_sv[q].0;
                        let bucket = spec_bucket_start(timestamp, tf.spec_width()) as u64;
                        &&& market.slots@[q].timeframe == tf
                        &&& market.slots@[q].open_bar == Some(
                            spec_bar_after(pre_sv[q].1, bucket, price, quantity),
                        )
                        &&& market.slots@[q].closed@ == spec_closed_after(
                            pre_closed[q],
                            pre_sv[q].1,
                            bucket,
                        )
                        &&& market.slots@[q].closed@.len() <= CLOSED_BARS_CAP
                    },
                updates@.len() == spec_trade_updates(
                    pre_sv.take(i as int),
                    price,
                    quantity,
                    timestamp,
                ).len(),
                forall|k: int|
                    0 <= k < updates@.len() ==> update_matches(
                        #[trigger] updates@[k],
                        symbol@,
                        spec_trade_updates(pre_sv.take(i as int), price, quantity, timestamp)[k],
                    ),
                forall|q: int|
                    #![trigger orig_slots[q]]
                    0 <= q < nslots ==> orig_slots[q].closed@.len() <= CLOSED_BARS_CAP,
            decreases nslots - i,
        {
            let ghost entry_slots = market.slots@;
            let mut slot = market.slots.remove(i);
            let ghost slot0 = slot;
            let tf = slot.timeframe;
            let w = tf.width_secs();
            let bucket = bucket_start(timestamp, w);
            match slot.open_bar {
                Some(b) => {
                    if b.time != bucket {
                        // rollover: close the old bucket's bar, then open
                        // the new bucket with this trade
                        updates.push(
                            CandleUpdate {
                                symbol: symbol.clone(),
                                timeframe: tf,
                                bar: b,
                                is_closed: true,
                            },
                        );
                        if slot.closed.len() >= CLOSED_BARS_CAP {
                            slot.closed.remove(0);
                        }
                        slot.closed.push(b);
                        let nb = TvBar {
                            time: bucket,
                            open: price,
                            high: price,
                            low: price,
                            close: price,
                            volume: quantity,
                        };
                        slot.open_bar = Some(nb);
                        updates.push(
                            CandleUpdate {
                                symbol: symbol.clone(),
                                timeframe: tf,
                                bar: nb,
                                is_closed: false,
                            },
                        );
                    } else {
                        // same bucket: fold the trade into the open bar
                        let nb = TvBar {
                            time: b.time,
                            open: b.open,
                            high: if price > b.high {
                                price
                            } else {
                                b.high
                            },
                            low: if price < b.low {
                                price
                            } else {
                                b.low
                            },
                            close: price,
                            volume: fixed::sat_add(b.volume, quantity),
                        };
                        slot.open_bar = Some(nb);
                        updates.push(
                            CandleUpdate {
                                symbol: symbol.clone(),
                                timeframe: tf,
                                bar: nb,
                                is_closed: false,
                            },
                        );
                    }
                },
                None => {
                    // first trade ever seen for this slot
                    let nb = TvBar {
                        time: bucket,
                        open: price,
                        high: price,
                        low: price,
                        close: price,
                        volume: quantity,
                    };
                    slot.open_bar = Some(nb);
                    updates.push(
                        CandleUpdate {
                            symbol: symbol.clone(),
                            timeframe: tf,
                            bar: nb,
                            is_closed: false,
                        },
                    );
                },
            }
            market.slots.insert(i, slot);
            proof {
                assert(market.slots@ =~= entry_slots.update(i as int, slot));
                assert(slot0 == orig_slots[i as int]);
                assert(pre_sv[i as int] == (orig_slots[i as int].timeframe, orig_slots[i as int].open_bar));
                assert(pre_closed[i as int] == orig_slots[i as int].closed@);
                let t1 = pre_sv.take(i as int + 1);
                assert(t1.drop_last() =~= pre_sv.take(i as int));
                assert(t1.last() == pre_sv[i as int]);
                assert(updates@.len() == spec_trade_updates(
                    pre_sv.take(i as int + 1),
                    price,
                    quantity,
                    timestamp,
                ).len());
            }
            i = i + 1;
        }
        proof {
            assert(pre_sv.take(nslots as int) =~= pre_sv);
        }
        self.markets.insert(m, market);
        self.last_trade_ts = timestamp;
        let has_channel = self.publish.is_some();
        if has_channel {
            let mut copies: Vec<CandleUpdate> = Vec::new();
            let mut k: usize = 0;
            let total = updates.len();
            while k < total
                invariant
                    total == updates@.len(),
                    0 <= k <= total,
                    copies@.len() == k as int,
                    forall|q: int| 0 <= q < k as int ==> copies@[q] == #[trigger] updates@[q],
                decreases total - k,
            {
                let c = updates[k].dup();
                copies.push(c);
                k = k + 1;
            }
            proof {
                assert(copies@ =~= updates@);
            }
            match &mut self.publish {
                Some(ch) => {
                    ch.publish_all(copies);
                },
                None => {},
            }
        }
        proof {
            self.lemma_wf_after_trade(pre, market, m as int, existed, timestamp);
        }
        updates
    }

    /// The well-formedness argument after one trade: the traded market's
    /// slots moved to the trade's buckets, every other market's open bars
    /// still sit at or before the newest bucket.
    proof fn lemma_wf_after_trade(
        &self,
        pre: Self,
        market: SymbolCandles,
        m: int,
        existed: bool,
        timestamp: u64,
    )
        requires
            pre.wf(),
            timestamp >= pre.last_trade_ts,
            self.last_trade_ts == timestamp,
            if existed {
                &&& 0 <= m < pre.markets@.len()
                &&& self.markets@.len() == pre.markets@.len()
                &&& forall|mm: int|
                    0 <= mm < pre.markets@.len() && mm != m ==> self.markets@[mm]
                        == pre.markets@[mm]
                &&& market.symbol@ == pre.markets@[m].symbol@
            } else {
                &&& m == pre.markets@.len()
                &&& self.markets@.len() == pre.markets@.len() + 1
                &&& forall|mm: int|
                    0 <= mm < pre.markets@.len() ==> self.markets@[mm] == pre.markets@[mm]
                &&& forall|mm: int|
                    0 <= mm < pre.markets@.len() ==> pre.markets@[mm].symbol@ != market.symbol@
            },
            self.markets@[m] == market,
            market.slots@.len() == spec_timeframes().len(),
            forall|i: int|
                #![trigger market.slots@[i]]
                0 <= i < market.slots@.len() ==> {
                    &&& market.slots@[i].timeframe == spec_timeframes()[i]
                    &&& market.slots@[i].closed@.len() <= CLOSED_BARS_CAP
                    &&& match market.slots@[i].open_bar {
                        Some(b) => b.time == spec_bucket_start(
                            timestamp,
                            market.slots@[i].timeframe.spec_width(),
                        ) as u64,
                        None => false,
                    }
                },
            match self.publish {
                Some(c) => c.wf(),
                None => true,
            },
        ensures
            self.wf(),
    {
        assert forall|mm: int| 0 <= mm < self.markets@.len() implies self.market_ok(
            #[trigger] self.markets@[mm],
        ) by {
            if mm == m {
                assert forall|i: int| 0 <= i < market.slots@.len() implies {
                    &&& (#[trigger] market.slots@[i]).timeframe == spec_timeframes()[i]
                    &&& self.slot_ok(market.slots@[i])
                } by {
                    let tf = market.slots@[i].timeframe;
                    let w = tf.spec_width();
                    assert(w > 0);
                    match market.slots@[i].open_bar {
                        Some(b) => {
                            lemma_bucket_range(timestamp, w);
                            vstd::arithmetic::div_mod::lemma_mod_multiples_basic(
                                timestamp as int / w as int,
                                w as int,
                            );
                        },
                        None => {},
                    }
                };
            } else {
                let source = pre.markets@[mm];
                assert(self.markets@[mm] == source);
                assert(pre.market_ok(source));
                assert forall|i: int| 0 <= i < source.slots@.len() implies {
                    &&& (#[trigger] source.slots@[i]).timeframe == spec_timeframes()[i]
                    &&& self.slot_ok(source.slots@[i])
                } by {
                    let w = source.slots@[i].timeframe.spec_width();
                    assert(w > 0);
                    match source.slots@[i].open_bar {
                        Some(b) => {
                            lemma_bucket_monotone(pre.last_trade_ts, timestamp, w);
                        },
                        None => {},
                    }
                };
            }
        };
        assert forall|m1: int, m2: int|
            0 <= m1 < m2 < self.markets@.len() implies self.markets@[m1].symbol@
            != self.markets@[m2].symbol@ by {
            if existed {
                assert(self.markets@[m1].symbol@ == pre.markets@[m1].symbol@);
                assert(self.markets@[m2].symbol@ == pre.markets@[m2].symbol@);
            } else {
                if m2 == m {
                    assert(self.markets@[m1] == pre.markets@[m1]);
                } else {
                    assert(self.markets@[m1] == pre.markets@[m1]);
                    assert(self.markets@[m2] == pre.markets@[m2]);
                }
            }
        };
    }
}

} // verus!
