//! Order book snapshots and running statistics of every market.
use super::decimal::{within_max, Decimal};
use super::pair_map::PairMap;
use super::trade::DAY_NANOS;
use super::types::{current_time, Timestamp, TradingPair, TradingPairView};
use vstd::prelude::*;

verus! {

#[derive(Debug, Clone, Copy)]
pub struct OrderBookLevel {
    pub price: Decimal,
    pub size: Decimal,
    pub order_count: usize,
}

#[derive(Debug, Clone)]
pub struct OrderBookSnapshot {
    pub bids: Vec<OrderBookLevel>,
    pub asks: Vec<OrderBookLevel>,
    pub timestamp: Timestamp,
}

/// A snapshot as its levels and its time.
pub struct OrderBookSnapshotView {
    pub bids: Seq<OrderBookLevel>,
    pub asks: Seq<OrderBookLevel>,
    pub timestamp: Timestamp,
}

impl View for OrderBookSnapshot {
    type V = OrderBookSnapshotView;

    open spec fn view(&self) -> OrderBookSnapshotView {
        OrderBookSnapshotView { bids: self.bids@, asks: self.asks@, timestamp: self.timestamp }
    }
}

pub open spec fn snapshot_views(snaps: Seq<OrderBookSnapshot>) -> Seq<OrderBookSnapshotView> {
    snaps.map_values(|s: OrderBookSnapshot| s@)
}

#[derive(Debug, Clone, Copy)]
pub struct MarketStats {
    pub last_price: Option<Decimal>,
    pub volume_24h: Decimal,
    pub high_24h: Option<Decimal>,
    pub low_24h: Option<Decimal>,
    pub num_trades_24h: u64,
    pub timestamp: Timestamp,
}

#[derive(Debug)]
pub struct MarketDataAggregator {
    order_book_snapshots: PairMap<Vec<OrderBookSnapshot>>,
    market_stats: PairMap<MarketStats>,
}

/// The statistics of a market before its first update.
pub open spec fn initial_stats(now: Timestamp) -> MarketStats {
    MarketStats {
        last_price: None,
        volume_24h: Decimal::zero_spec(),
        high_24h: None,
        low_24h: None,
        num_trades_24h: 0,
        timestamp: now,
    }
}

/// The statistics of a market, or the initial ones.
pub open spec fn current_stats(stats: Map<TradingPairView, MarketStats>, pair: TradingPairView, now: Timestamp) -> MarketStats {
    if stats.contains_key(pair) {
        stats[pair]
    } else {
        initial_stats(now)
    }
}

/// The statistics after a trade report at `now`: a price becomes the last
/// price and widens the high and the low (both start at the first price);
/// the volume and the trade count grow.
pub open spec fn updated_stats(s: MarketStats, price: Option<Decimal>, volume: Decimal, num_trades: u64, now: Timestamp) -> MarketStats {
    MarketStats {
        last_price: match price {
            Some(p) => Some(p),
            None => s.last_price,
        },
        volume_24h: s.volume_24h.add_spec(volume),
        high_24h: match price {
            Some(p) => match (s.high_24h, s.low_24h) {
                (Some(h), Some(_)) => Some(h.max_spec(p)),
                _ => Some(p),
            },
            None => s.high_24h,
        },
        low_24h: match price {
            Some(p) => match (s.high_24h, s.low_24h) {
                (Some(_), Some(l)) => Some(l.min_spec(p)),
                _ => Some(p),
            },
            None => s.low_24h,
        },
        num_trades_24h: (s.num_trades_24h + num_trades) as u64,
        timestamp: now,
    }
}

/// The statistics agree with each other: the high and the low are known
/// together, the low is no higher than the high, and a known last price lies
/// between them.
pub open spec fn stats_consistent(s: MarketStats) -> bool {
    match (s.high_24h, s.low_24h) {
        (Some(h), Some(l)) => l.value() <= h.value() && match s.last_price {
            Some(p) => l.value() <= p.value() && p.value() <= h.value(),
            None => true,
        },
        (None, None) => s.last_price is None,
        _ => false,
    }
}

/// A market's statistics start consistent.
pub proof fn lemma_initial_stats_consistent(now: Timestamp)
    ensures
        stats_consistent(initial_stats(now)),
{
}

/// Every trade report keeps the statistics consistent: a reported price
/// becomes the last price, the high never falls and the low never rises.
pub proof fn lemma_update_keeps_stats_consistent(
    s: MarketStats,
    price: Option<Decimal>,
    volume: Decimal,
    num_trades: u64,
    now: Timestamp,
)
    requires
        stats_consistent(s),
    ensures
        stats_consistent(updated_stats(s, price, volume, num_trades, now)),
        price matches Some(p) ==> updated_stats(s, price, volume, num_trades, now).last_price == Some(p),
        s.high_24h matches Some(h) ==> updated_stats(s, price, volume, num_trades, now).high_24h->Some_0.value() >= h.value(),
        s.low_24h matches Some(l) ==> updated_stats(s, price, volume, num_trades, now).low_24h->Some_0.value() <= l.value(),
{
}

/// `u` is what a report of `num_trades` trades of `volume` at `price` makes
/// of the statistics `s`: the trade count grows by exactly `num_trades`, the
/// volume by `volume`; a price becomes the last price and lies between the
/// new low and high; without a price the last price, high and low stay.
pub open spec fn reports(s: MarketStats, price: Option<Decimal>, volume: Decimal, num_trades: u64, now: Timestamp, u: MarketStats) -> bool {
    &&& u.num_trades_24h == s.num_trades_24h + num_trades
    &&& u.volume_24h == s.volume_24h.add_spec(volume)
    &&& u.timestamp == now
    &&& price is None ==> u.last_price == s.last_price && u.high_24h == s.high_24h && u.low_24h == s.low_24h
    &&& price is Some ==> {
        &&& u.last_price == price
        &&& u.high_24h is Some && u.low_24h is Some
        &&& u.low_24h->Some_0.value() <= price->Some_0.value() <= u.high_24h->Some_0.value()
        &&& s.high_24h is Some && s.low_24h is Some ==> u.high_24h->Some_0.value() >= s.high_24h->Some_0.value()
        &&& s.low_24h is Some && s.high_24h is Some ==> u.low_24h->Some_0.value() <= s.low_24h->Some_0.value()
    }
}

/// Every report updates the statistics as `reports` says, whatever its price.
pub proof fn lemma_report(s: MarketStats, price: Option<Decimal>, volume: Decimal, num_trades: u64, now: Timestamp)
    requires
        s.num_trades_24h + num_trades <= u64::MAX,
    ensures
        reports(s, price, volume, num_trades, now, updated_stats(s, price, volume, num_trades, now)),
{
}

/// The snapshot was taken less than one day before `now` (a snapshot from
/// after `now` is not kept).
pub open spec fn is_recent(s: OrderBookSnapshotView, now: Timestamp) -> bool {
    s.timestamp <= now && now - s.timestamp < DAY_NANOS
}

/// The recent snapshots, in order.
pub open spec fn recent(snaps: Seq<OrderBookSnapshotView>, now: Timestamp) -> Seq<OrderBookSnapshotView>
    decreases snaps.len(),
{
    if snaps.len() == 0 {
        snaps
    } else if is_recent(snaps.last(), now) {
        recent(snaps.drop_last(), now).push(snaps.last())
    } else {
        recent(snaps.drop_last(), now)
    }
}

/// The recent snapshots of every market.
pub open spec fn recent_all(snaps: Map<TradingPairView, Seq<OrderBookSnapshotView>>, now: Timestamp) -> Map<TradingPairView, Seq<OrderBookSnapshotView>> {
    snaps.map_values(|s: Seq<OrderBookSnapshotView>| recent(s, now))
}

/// A copy of the levels.
fn copy_levels(levels: &Vec<OrderBookLevel>) -> (r: Vec<OrderBookLevel>)
    ensures
        r@ == levels@,
{
    let n = levels.len();
    let mut out: Vec<OrderBookLevel> = Vec::new();
    let mut i: usize = 0;
    while i < n
        invariant
            n == levels@.len(),
            0 <= i <= n,
            out@ == levels@.subrange(0, i as int),
        decreases n - i,
    {
        out.push(levels[i]);
        i += 1;
        proof {
            assert(out@ =~= levels@.subrange(0, i as int));
        }
    }
    proof {
        assert(levels@.subrange(0, n as int) =~= levels@);
    }
    out
}

impl OrderBookSnapshot {
    /// A copy of the snapshot.
    pub fn duplicate(&self) -> (r: OrderBookSnapshot)
        ensures
            r@ == self@,
    {
        OrderBookSnapshot {
            bids: copy_levels(&self.bids),
            asks: copy_levels(&self.asks),
            timestamp: self.timestamp,
        }
    }
}

/// The recent snapshots, in order.
fn keep_recent(snaps: &Vec<OrderBookSnapshot>, now: Timestamp) -> (r: Vec<OrderBookSnapshot>)
    ensures
        snapshot_views(r@) == recent(snapshot_views(snaps@), now),
{
    let ghost views = snapshot_views(snaps@);
    let n = snaps.len();
    let mut out: Vec<OrderBookSnapshot> = Vec::new();
    let mut i: usize = 0;
    proof {
        assert(views.subrange(0, 0) =~= Seq::<OrderBookSnapshotView>::empty());
        assert(snapshot_views(out@) =~= Seq::<OrderBookSnapshotView>::empty());
    }
    while i < n
        invariant
            n == snaps@.len(),
            views == snapshot_views(snaps@),
            0 <= i <= n,
            snapshot_views(out@) == recent(views.subrange(0, i as int), now),
        decreases n - i,
    {
        proof {
            assert(views.subrange(0, i + 1).drop_last() =~= views.subrange(0, i as int));
            assert(views.subrange(0, i + 1).last() == snaps@[i as int]@);
        }
        let ts = snaps[i].timestamp;
        if ts <= now && now - ts < DAY_NANOS {
            let ghost prev = out@;
            let c = snaps[i].duplicate();
            out.push(c);
            proof {
                assert(snapshot_views(out@) =~= snapshot_views(prev).push(c@));
            }
        }
        i += 1;
    }
    proof {
        assert(views.subrange(0, n as int) =~= views);
    }
    out
}

} // verus!

verus! {

impl MarketDataAggregator {
    /// The statistics of each market.
    pub closed spec fn stats(&self) -> Map<TradingPairView, MarketStats> {
        self.market_stats.map()
    }

    /// The snapshots of each market, oldest first.
    pub closed spec fn snapshots(&self) -> Map<TradingPairView, Seq<OrderBookSnapshotView>> {
        self.order_book_snapshots.map().map_values(|v: Vec<OrderBookSnapshot>| snapshot_views(v@))
    }

    pub closed spec fn wf(&self) -> bool {
        &&& self.order_book_snapshots.wf()
        &&& self.market_stats.wf()
        &&& forall|k: TradingPairView| #[trigger] self.stats().contains_key(k) ==> stats_consistent(self.stats()[k])
    }

    /// Every market's statistics are consistent, whatever updates came.
    pub proof fn lemma_stats_consistent(&self)
        requires
            self.wf(),
        ensures
            forall|k: TradingPairView| #[trigger] self.stats().contains_key(k) ==> stats_consistent(self.stats()[k]),
    {
    }

    /// The snapshots of the market, or none.
    pub open spec fn snapshots_of(&self, pair: TradingPairView) -> Seq<OrderBookSnapshotView> {
        if self.snapshots().contains_key(pair) {
            self.snapshots()[pair]
        } else {
            Seq::empty()
        }
    }

    pub fn new() -> (r: Self)
        ensures
            r.wf(),
            r.stats() == Map::<TradingPairView, MarketStats>::empty(),
            r.snapshots() == Map::<TradingPairView, Seq<OrderBookSnapshotView>>::empty(),
    {
        let r = MarketDataAggregator { order_book_snapshots: PairMap::new(), market_stats: PairMap::new() };
        assert(r.snapshots() =~= Map::<TradingPairView, Seq<OrderBookSnapshotView>>::empty());
        r
    }

    /// Appends a snapshot of the book of the market, taken at `now`.
    pub fn update_order_book_at(
        &mut self,
        pair: TradingPair,
        bids: Vec<OrderBookLevel>,
        asks: Vec<OrderBookLevel>,
        now: Timestamp,
    )
        requires
            old(self).wf(),
        ensures
            final(self).wf(),
            final(self).stats() == old(self).stats(),
            final(self).snapshots() == old(self).snapshots().insert(
                pair@,
                old(self).snapshots_of(pair@).push(OrderBookSnapshotView { bids: bids@, asks: asks@, timestamp: now }),
            ),
    {
        let snapshot = OrderBookSnapshot { bids, asks, timestamp: now };
        let ghost sv = snapshot@;
        let ghost before = self.order_book_snapshots;
        match self.order_book_snapshots.position(&pair) {
            Some(i) => {
                proof {
                    before.lemma_map_at(i as int);
                }
                self.order_book_snapshots.vals[i].push(snapshot);
                proof {
                    let after = self.order_book_snapshots;
                    PairMap::lemma_set_at(&before, &after, i as int, after.vals@[i as int]);
                    assert(snapshot_views(after.vals@[i as int]@) =~= snapshot_views(before.vals@[i as int]@).push(sv));
                    assert(self.snapshots() =~= old(self).snapshots().insert(pair@, old(self).snapshots_of(pair@).push(sv)));
                    assert(self.stats() == old(self).stats());
                }
            },
            None => {
                let mut v: Vec<OrderBookSnapshot> = Vec::new();
                v.push(snapshot);
                self.order_book_snapshots.insert_new(pair, v);
                proof {
                    assert(snapshot_views(v@) =~= Seq::<OrderBookSnapshotView>::empty().push(sv));
                    assert(self.snapshots() =~= old(self).snapshots().insert(pair@, old(self).snapshots_of(pair@).push(sv)));
                    assert(self.stats() == old(self).stats());
                }
            },
        }
    }

    /// Appends a snapshot of the book of the market, taken now.
    pub fn update_order_book(&mut self, pair: TradingPair, bids: Vec<OrderBookLevel>, asks: Vec<OrderBookLevel>)
        requires
            old(self).wf(),
        ensures
            final(self).wf(),
            final(self).stats() == old(self).stats(),
            exists|now: Timestamp|
                final(self).snapshots() == old(self).snapshots().insert(
                    pair@,
                    old(self).snapshots_of(pair@).push(OrderBookSnapshotView { bids: bids@, asks: asks@, timestamp: now }),
                ),
    {
        let ghost b = bids@;
        let ghost a = asks@;
        let now = current_time();
        self.update_order_book_at(pair, bids, asks, now);
        proof {
            assert(final(self).snapshots() == old(self).snapshots().insert(
                pair@,
                old(self).snapshots_of(pair@).push(OrderBookSnapshotView { bids: b, asks: a, timestamp: now }),
            ));
        }
    }

    /// Reports trades of the market at `now`.
    pub fn update_market_stats_at(
        &mut self,
        pair: TradingPair,
        price: Option<Decimal>,
        volume: Decimal,
        num_trades: u64,
        now: Timestamp,
    )
        requires
            old(self).wf(),
            within_max(current_stats(old(self).stats(), pair@, now).volume_24h.value() + volume.value()),
            current_stats(old(self).stats(), pair@, now).num_trades_24h + num_trades <= u64::MAX,
        ensures
            final(self).wf(),
            final(self).snapshots() == old(self).snapshots(),
            final(self).stats() == old(self).stats().insert(
                pair@,
                updated_stats(current_stats(old(self).stats(), pair@, now), price, volume, num_trades, now),
            ),
            ({
                let v0 = current_stats(old(self).stats(), pair@, now).volume_24h;
                let v1 = final(self).stats()[pair@].volume_24h;
                &&& v1.scale_of() <= super::decimal::max_nat(v0.scale_of(), volume.scale_of())
                &&& super::decimal::fits_at(v0.value() + volume.value(), super::decimal::max_nat(v0.scale_of(), volume.scale_of()))
                    ==> v1.value() == v0.value() + volume.value()
            }),
            reports(current_stats(old(self).stats(), pair@, now), price, volume, num_trades, now, final(self).stats()[pair@]),
    {
        let ghost before = self.market_stats;
        let (index, stats) = match self.market_stats.position(&pair) {
            Some(i) => {
                proof {
                    before.lemma_map_at(i as int);
                }
                (Some(i), self.market_stats.vals[i])
            },
            None => (None, MarketStats {
                last_price: None,
                volume_24h: Decimal::zero(),
                high_24h: None,
                low_24h: None,
                num_trades_24h: 0,
                timestamp: now,
            }),
        };
        let mut stats = stats;
        if let Some(price) = price {
            stats.last_price = Some(price);
            match (stats.high_24h, stats.low_24h) {
                (Some(high), Some(low)) => {
                    stats.high_24h = Some(high.max(price));
                    stats.low_24h = Some(low.min(price));
                },
                _ => {
                    stats.high_24h = Some(price);
                    stats.low_24h = Some(price);
                },
            }
        }
        stats.volume_24h = stats.volume_24h.add(volume);
        stats.num_trades_24h = stats.num_trades_24h + num_trades;
        stats.timestamp = now;
        match index {
            Some(i) => {
                self.market_stats.vals.set(i, stats);
                proof {
                    PairMap::lemma_set_at(&before, &self.market_stats, i as int, stats);
                }
            },
            None => {
                self.market_stats.insert_new(pair, stats);
            },
        }
    }

    /// Reports trades of the market now.
    pub fn update_market_stats(&mut self, pair: TradingPair, price: Option<Decimal>, volume: Decimal, num_trades: u64)
        requires
            old(self).wf(),
            within_max(current_stats(old(self).stats(), pair@, 0).volume_24h.value() + volume.value()),
            current_stats(old(self).stats(), pair@, 0).num_trades_24h + num_trades <= u64::MAX,
        ensures
            final(self).wf(),
            final(self).snapshots() == old(self).snapshots(),
            exists|now: Timestamp|
                final(self).stats() == old(self).stats().insert(
                    pair@,
                    updated_stats(current_stats(old(self).stats(), pair@, now), price, volume, num_trades, now),
                ),
            ({
                let v0 = current_stats(old(self).stats(), pair@, 0).volume_24h;
                let v1 = final(self).stats()[pair@].volume_24h;
                &&& v1.scale_of() <= super::decimal::max_nat(v0.scale_of(), volume.scale_of())
                &&& super::decimal::fits_at(v0.value() + volume.value(), super::decimal::max_nat(v0.scale_of(), volume.scale_of()))
                    ==> v1.value() == v0.value() + volume.value()
            }),
            exists|now: Timestamp|
                reports(
                    current_stats(old(self).stats(), pair@, now),
                    price,
                    volume,
                    num_trades,
                    now,
                    #[trigger] final(self).stats()[pair@],
                ),
            final(self).stats()[pair@].num_trades_24h == current_stats(old(self).stats(), pair@, 0).num_trades_24h
                + num_trades,
    {
        let now = current_time();
        proof {
            assert(within_max(current_stats(self.stats(), pair@, now).volume_24h.value() + volume.value()));
            assert(current_stats(self.stats(), pair@, now).num_trades_24h + num_trades <= u64::MAX);
        }
        self.update_market_stats_at(pair, price, volume, num_trades, now);
    }

    pub fn get_market_stats(&self, pair: &TradingPair) -> (r: Option<MarketStats>)
        requires
            self.wf(),
        ensures
            r == (if self.stats().contains_key(pair@) {
                Some(self.stats()[pair@])
            } else {
                None
            }),
    {
        match self.market_stats.get(pair) {
            Some(s) => Some(*s),
            None => None,
        }
    }

    /// The latest snapshot of the market.
    pub fn get_order_book_snapshot(&self, pair: &TradingPair) -> (r: Option<OrderBookSnapshot>)
        requires
            self.wf(),
        ensures
            match r {
                Some(s) => self.snapshots_of(pair@).len() > 0 && s@ == self.snapshots_of(pair@).last(),
                None => self.snapshots_of(pair@).len() == 0,
            },
    {
        match self.order_book_snapshots.get(pair) {
            Some(snaps) => {
                if snaps.len() > 0 {
                    Some(snaps[snaps.len() - 1].duplicate())
                } else {
                    None
                }
            },
            None => None,
        }
    }

    /// Drops the snapshots that are not from the last day before `now`.
    pub fn cleanup_old_data_at(&mut self, now: Timestamp)
        requires
            old(self).wf(),
        ensures
            final(self).wf(),
            final(self).stats() == old(self).stats(),
            final(self).snapshots() == recent_all(old(self).snapshots(), now),
    {
        let ghost start = self.order_book_snapshots;
        let n = self.order_book_snapshots.vals.len();
        let mut i: usize = 0;
        while i < n
            invariant
                start.wf(),
                n == start.vals@.len(),
                0 <= i <= n,
                self.order_book_snapshots.keys@ == start.keys@,
                self.order_book_snapshots.vals@.len() == n,
                self.market_stats == old(self).market_stats,
                start == old(self).order_book_snapshots,
                forall|j: int| 0 <= j < i ==> snapshot_views((#[trigger] self.order_book_snapshots.vals@[j])@) == recent(snapshot_views(start.vals@[j]@), now),
                forall|j: int| i <= j < n ==> #[trigger] self.order_book_snapshots.vals@[j] == start.vals@[j],
            decreases n - i,
        {
            let kept = keep_recent(&self.order_book_snapshots.vals[i], now);
            self.order_book_snapshots.vals.set(i, kept);
            i += 1;
        }
        proof {
            let m = self.order_book_snapshots;
            assert(m.wf());
            let expected = recent_all(old(self).snapshots(), now);
            assert forall|k: TradingPairView| #[trigger] self.snapshots().contains_key(k) == expected.contains_key(k) by {
                if m.contains(k) {
                    let j = choose|j: int| m.key_at(k, j);
                    assert(start.key_at(k, j));
                }
                if start.contains(k) {
                    let j = choose|j: int| start.key_at(k, j);
                    assert(m.key_at(k, j));
                }
            }
            assert forall|k: TradingPairView| #[trigger] self.snapshots().contains_key(k) implies self.snapshots()[k] == expected[k] by {
                let j = choose|j: int| m.key_at(k, j);
                m.lemma_map_at(j);
                assert(start.key_at(k, j));
                start.lemma_map_at(j);
            }
            assert(self.snapshots() =~= expected);
            assert(self.stats() == old(self).stats());
        }
    }

    /// Drops the snapshots that are not from the last day.
    pub fn cleanup_old_data(&mut self)
        requires
            old(self).wf(),
        ensures
            final(self).wf(),
            final(self).stats() == old(self).stats(),
            exists|now: Timestamp| final(self).snapshots() == #[trigger] recent_all(old(self).snapshots(), now),
    {
        let now = current_time();
        self.cleanup_old_data_at(now);
    }
}

} // verus!

verus! {

/// Cleaning up keeps exactly the recent snapshots: every snapshot kept is a
/// recent one of the market, and every recent one is kept.
pub proof fn lemma_cleanup_keeps_recent(snaps: Seq<OrderBookSnapshotView>, now: Timestamp)
    ensures
        forall|i: int| 0 <= i < recent(snaps, now).len() ==> is_recent(#[trigger] recent(snaps, now)[i], now)
            && snaps.contains(recent(snaps, now)[i]),
        forall|i: int| 0 <= i < snaps.len() && is_recent(#[trigger] snaps[i], now) ==> recent(snaps, now).contains(snaps[i]),
    decreases snaps.len(),
{
    if snaps.len() > 0 {
        let init = snaps.drop_last();
        let r0 = recent(init, now);
        lemma_cleanup_keeps_recent(init, now);
        let r = recent(snaps, now);
        assert forall|i: int| 0 <= i < r.len() implies is_recent(#[trigger] r[i], now) && snaps.contains(r[i]) by {
            if i < r0.len() {
                assert(r[i] == r0[i]);
                let j = choose|j: int| 0 <= j < init.len() && init[j] == r0[i];
                assert(snaps[j] == init[j]);
            } else {
                assert(r[i] == snaps.last());
                assert(snaps[snaps.len() - 1] == snaps.last());
            }
        }
        assert forall|i: int| 0 <= i < snaps.len() && is_recent(#[trigger] snaps[i], now) implies r.contains(snaps[i]) by {
            if i < init.len() {
                assert(init[i] == snaps[i]);
                let j = choose|j: int| 0 <= j < r0.len() && r0[j] == init[i];
                assert(r[j] == r0[j]);
            } else {
                assert(r[r.len() - 1] == snaps.last());
            }
        }
    }
}

impl MarketDataAggregator {
    /// The latest snapshot of a market is the one last taken of it, and
    /// taking it touches no other market's snapshots.
    pub proof fn lemma_latest_snapshot(before: &Self, after: &Self, pair: TradingPairView, s: OrderBookSnapshotView)
        requires
            after.snapshots() == before.snapshots().insert(pair, before.snapshots_of(pair).push(s)),
        ensures
            after.snapshots_of(pair).len() > 0,
            after.snapshots_of(pair).last() == s,
            forall|q: TradingPairView| q != pair ==> #[trigger] after.snapshots_of(q) == before.snapshots_of(q),
    {
    }
}

} // verus!

verus! {

/// Two trade reports with prices, applied in either order, leave the same
/// trade count and, by value, the same high and low; the last price is the
/// one reported last; and where each of the four sums is exact the volumes
/// agree by value.
pub proof fn lemma_reports_commute(
    s: MarketStats,
    p1: Decimal,
    v1: Decimal,
    n1: u64,
    p2: Decimal,
    v2: Decimal,
    n2: u64,
    t1: Timestamp,
    t2: Timestamp,
)
    requires
        s.num_trades_24h + n1 + n2 <= u64::MAX,
    ensures
        ({
            let a = updated_stats(updated_stats(s, Some(p1), v1, n1, t1), Some(p2), v2, n2, t2);
            let b = updated_stats(updated_stats(s, Some(p2), v2, n2, t1), Some(p1), v1, n1, t2);
            &&& a.num_trades_24h == b.num_trades_24h
            &&& a.high_24h is Some && b.high_24h is Some
            &&& a.high_24h->Some_0.value() == b.high_24h->Some_0.value()
            &&& a.low_24h is Some && b.low_24h is Some
            &&& a.low_24h->Some_0.value() == b.low_24h->Some_0.value()
            &&& a.last_price == Some(p2)
            &&& b.last_price == Some(p1)
            &&& (s.volume_24h.add_spec(v1).value() == s.volume_24h.value() + v1.value()
                && s.volume_24h.add_spec(v1).add_spec(v2).value() == s.volume_24h.add_spec(v1).value() + v2.value()
                && s.volume_24h.add_spec(v2).value() == s.volume_24h.value() + v2.value()
                && s.volume_24h.add_spec(v2).add_spec(v1).value() == s.volume_24h.add_spec(v2).value() + v1.value())
                ==> a.volume_24h.value() == b.volume_24h.value()
        }),
{
}

} // verus!

verus! {

impl Default for MarketDataAggregator {
    fn default() -> (r: Self)
        ensures
            r.wf(),
            r.stats() == Map::<TradingPairView, MarketStats>::empty(),
            r.snapshots() == Map::<TradingPairView, Seq<OrderBookSnapshotView>>::empty(),
    {
        MarketDataAggregator::new()
    }
}

} // verus!
