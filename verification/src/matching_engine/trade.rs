//! The history of the trades of every market.
use super::decimal::{lemma_fits, Decimal};
use super::pair_map::PairMap;
use super::types::{current_time, Order, Timestamp, Trade, TradingPair, TradingPairView};
use vstd::prelude::*;

verus! {

/// One day, in nanoseconds.
pub const DAY_NANOS: u128 = 86400000000000;

/// The trades of the pair, in the order they were recorded.
pub open spec fn trades_of(trades: Seq<Trade>, pair: TradingPairView) -> Seq<Trade>
    decreases trades.len(),
{
    if trades.len() == 0 {
        Seq::empty()
    } else if trades.last().trading_pair@ == pair {
        trades_of(trades.drop_last(), pair).push(trades.last())
    } else {
        trades_of(trades.drop_last(), pair)
    }
}

/// The trade happened within one day after `now` (a trade before `now` is
/// never counted).
pub open spec fn in_window(t: Trade, now: Timestamp) -> bool {
    now <= t.timestamp && t.timestamp - now < DAY_NANOS
}

/// The sizes of the trades in the window, summed from zero in order with the
/// decimal addition.
pub open spec fn window_sum(trades: Seq<Trade>, now: Timestamp) -> Decimal
    decreases trades.len(),
{
    if trades.len() == 0 {
        Decimal::zero_spec()
    } else if in_window(trades.last(), now) {
        window_sum(trades.drop_last(), now).add_spec(trades.last().size)
    } else {
        window_sum(trades.drop_last(), now)
    }
}

/// The exact total of the sizes of the trades in the window.
pub open spec fn window_volume(trades: Seq<Trade>, now: Timestamp) -> int
    decreases trades.len(),
{
    if trades.len() == 0 {
        0
    } else if in_window(trades.last(), now) {
        window_volume(trades.drop_last(), now) + trades.last().size.value()
    } else {
        window_volume(trades.drop_last(), now)
    }
}

/// The total of the magnitudes of the sizes of the trades.
pub open spec fn magnitude_total(trades: Seq<Trade>) -> int
    decreases trades.len(),
{
    if trades.len() == 0 {
        0
    } else {
        magnitude_total(trades.drop_last()) + (if trades.last().size.value() < 0 {
            -trades.last().size.value()
        } else {
            trades.last().size.value()
        })
    }
}

/// Every step of summing the sizes of the trades in the window stays within
/// `Decimal::MAX`.
pub open spec fn window_safe(trades: Seq<Trade>, now: Timestamp) -> bool {
    forall|k: int|
        0 <= k < trades.len() && in_window(#[trigger] trades[k], now) ==> super::decimal::within_max(
            window_sum(trades.subrange(0, k), now).value() + trades[k].size.value(),
        )
}

/// The sizes of the trades lie in the exact range and their magnitudes total
/// no more than the sums that are computed exactly.
pub open spec fn window_summable(trades: Seq<Trade>) -> bool {
    &&& forall|i: int| 0 <= i < trades.len() ==> (#[trigger] trades[i]).size.in_range()
    &&& magnitude_total(trades) <= super::decimal::exact_limit()
}

#[derive(Debug)]
pub struct TradeHistory {
    trades: Vec<Trade>,
    trades_by_pair: PairMap<Vec<Trade>>,
}

/// A copy of the trades.
fn copy_trades(trades: &Vec<Trade>) -> (r: Vec<Trade>)
    ensures
        r@ == trades@,
{
    let n = trades.len();
    let mut out: Vec<Trade> = Vec::new();
    let mut i: usize = 0;
    while i < n
        invariant
            n == trades@.len(),
            0 <= i <= n,
            out@ == trades@.subrange(0, i as int),
        decreases n - i,
    {
        out.push(trades[i].duplicate());
        i += 1;
        proof {
            assert(out@ =~= trades@.subrange(0, i as int));
        }
    }
    proof {
        assert(trades@.subrange(0, n as int) =~= trades@);
    }
    out
}

impl TradeHistory {
    /// All trades, in the order they were recorded.
    pub closed spec fn trades(&self) -> Seq<Trade> {
        self.trades@
    }

    /// Each pair's trades are kept apart, in the same order.
    pub closed spec fn wf(&self) -> bool {
        &&& self.trades_by_pair.wf()
        &&& forall|k: TradingPairView|
            #[trigger] trades_of(self.trades@, k) == (if self.trades_by_pair.map().contains_key(k) {
                self.trades_by_pair.map()[k]@
            } else {
                Seq::empty()
            })
    }

    pub fn new() -> (r: Self)
        ensures
            r.wf(),
            r.trades() == Seq::<Trade>::empty(),
    {
        let r = TradeHistory { trades: Vec::new(), trades_by_pair: PairMap::new() };
        assert forall|k: TradingPairView| #[trigger] trades_of(r.trades@, k) == Seq::<Trade>::empty() by {}
        r
    }

    /// Records a trade between the maker and the taker, with a fresh id and
    /// the current time, and returns it.
    pub fn record_trade(
        &mut self,
        trading_pair: TradingPair,
        price: Decimal,
        size: Decimal,
        maker_order: &Order,
        taker_order: &Order,
    ) -> (r: Trade)
        requires
            old(self).wf(),
        ensures
            final(self).wf(),
            r.describes(trading_pair, price, size, maker_order.id, taker_order.id),
            final(self).trades() == old(self).trades().push(r),
    {
        let trade = Trade::new(
            trading_pair.duplicate(),
            price,
            size,
            maker_order.id.clone(),
            taker_order.id.clone(),
        );
        let ghost old_trades = self.trades@;
        let ghost k = trading_pair@;
        self.trades.push(trade.duplicate());
        proof {
            assert(self.trades@.drop_last() =~= old_trades);
            assert forall|q: TradingPairView| q != k implies #[trigger] trades_of(self.trades@, q) == trades_of(old_trades, q) by {}
            assert(trades_of(self.trades@, k) == trades_of(old_trades, k).push(trade));
        }
        match self.trades_by_pair.position(&trading_pair) {
            Some(i) => {
                let ghost before = self.trades_by_pair;
                proof {
                    before.lemma_map_at(i as int);
                }
                self.trades_by_pair.vals[i].push(trade.duplicate());
                proof {
                    PairMap::lemma_set_at(&before, &self.trades_by_pair, i as int, self.trades_by_pair.vals@[i as int]);
                }
            },
            None => {
                let mut v: Vec<Trade> = Vec::new();
                v.push(trade.duplicate());
                proof {
                    assert(v@ =~= Seq::<Trade>::empty().push(trade));
                }
                self.trades_by_pair.insert_new(trading_pair, v);
            },
        }
        trade
    }

    /// The trades of the pair, in the order they were recorded.
    pub fn get_trades_by_pair(&self, pair: &TradingPair) -> (r: Vec<Trade>)
        requires
            self.wf(),
        ensures
            r@ == trades_of(self.trades(), pair@),
    {
        proof {
            assert(trades_of(self.trades@, pair@) == (if self.trades_by_pair.map().contains_key(pair@) {
                self.trades_by_pair.map()[pair@]@
            } else {
                Seq::empty()
            }));
        }
        match self.trades_by_pair.get(pair) {
            Some(trades) => copy_trades(trades),
            None => Vec::new(),
        }
    }

    /// The price of the last trade of the pair.
    pub fn get_last_price(&self, pair: &TradingPair) -> (r: Option<Decimal>)
        requires
            self.wf(),
        ensures
            r == (if trades_of(self.trades(), pair@).len() > 0 {
                Some(trades_of(self.trades(), pair@).last().price)
            } else {
                None
            }),
    {
        proof {
            assert(trades_of(self.trades@, pair@) == (if self.trades_by_pair.map().contains_key(pair@) {
                self.trades_by_pair.map()[pair@]@
            } else {
                Seq::empty()
            }));
        }
        match self.trades_by_pair.get(pair) {
            Some(trades) => {
                if trades.len() > 0 {
                    Some(trades[trades.len() - 1].price)
                } else {
                    None
                }
            },
            None => None,
        }
    }

    /// The total size of the pair's trades within one day after `now`.
    pub fn get_volume_24h_at(&self, pair: &TradingPair, now: Timestamp) -> (r: Decimal)
        requires
            self.wf(),
            window_safe(trades_of(self.trades(), pair@), now) || window_summable(trades_of(self.trades(), pair@)),
        ensures
            r == window_sum(trades_of(self.trades(), pair@), now),
            window_summable(trades_of(self.trades(), pair@)) ==> r.value() == window_volume(
                trades_of(self.trades(), pair@),
                now,
            ),
    {
        proof {
            assert(trades_of(self.trades@, pair@) == (if self.trades_by_pair.map().contains_key(pair@) {
                self.trades_by_pair.map()[pair@]@
            } else {
                Seq::empty()
            }));
            Decimal::lemma_zero();
        }
        match self.trades_by_pair.get(pair) {
            Some(trades) => sum_window(trades, now),
            None => Decimal::zero(),
        }
    }

    /// The total size of the pair's trades within one day after the current
    /// time.
    pub fn get_volume_24h(&self, pair: &TradingPair) -> (r: Decimal)
        requires
            self.wf(),
            (forall|now: Timestamp| #[trigger] window_safe(trades_of(self.trades(), pair@), now)) || window_summable(
                trades_of(self.trades(), pair@),
            ),
        ensures
            exists|now: Timestamp| r == window_sum(trades_of(self.trades(), pair@), now),
            window_summable(trades_of(self.trades(), pair@)) ==> exists|now: Timestamp|
                r == window_sum(trades_of(self.trades(), pair@), now) && r.value() == window_volume(
                    trades_of(self.trades(), pair@),
                    now,
                ),
    {
        let now = current_time();
        proof {
            if !window_summable(trades_of(self.trades(), pair@)) {
                assert(window_safe(trades_of(self.trades(), pair@), now));
            }
        }
        self.get_volume_24h_at(pair, now)
    }
}

proof fn lemma_magnitude_prefix(s: Seq<Trade>, k: int)
    requires
        0 <= k <= s.len(),
    ensures
        0 <= magnitude_total(s.subrange(0, k)) <= magnitude_total(s),
    decreases s.len() - k,
{
    if k < s.len() {
        lemma_magnitude_prefix(s, k + 1);
        assert(s.subrange(0, k + 1).drop_last() =~= s.subrange(0, k));
        lemma_magnitude_nonneg(s.subrange(0, k));
    } else {
        assert(s.subrange(0, k) =~= s);
        lemma_magnitude_nonneg(s);
    }
}

proof fn lemma_magnitude_nonneg(s: Seq<Trade>)
    ensures
        0 <= magnitude_total(s),
    decreases s.len(),
{
    if s.len() > 0 {
        lemma_magnitude_nonneg(s.drop_last());
    }
}

proof fn lemma_window_bounded(s: Seq<Trade>, now: Timestamp)
    ensures
        -magnitude_total(s) <= window_volume(s, now) <= magnitude_total(s),
    decreases s.len(),
{
    if s.len() > 0 {
        lemma_window_bounded(s.drop_last(), now);
    }
}

/// The sizes of the trades within one day after `now`, summed in order.
fn sum_window(trades: &Vec<Trade>, now: Timestamp) -> (r: Decimal)
    requires
        window_safe(trades@, now) || window_summable(trades@),
    ensures
        r == window_sum(trades@, now),
        window_summable(trades@) ==> r.value() == window_volume(trades@, now),
{
    let ghost ranged = window_summable(trades@);
    let n = trades.len();
    let mut acc = Decimal::zero();
    let mut i: usize = 0;
    proof {
        Decimal::lemma_zero();
        assert(trades@.subrange(0, 0) =~= Seq::<Trade>::empty());
    }
    while i < n
        invariant
            n == trades@.len(),
            0 <= i <= n,
            ranged == window_summable(trades@),
            !ranged ==> window_safe(trades@, now),
            acc == window_sum(trades@.subrange(0, i as int), now),
            ranged ==> acc.value() == window_volume(trades@.subrange(0, i as int), now),
            ranged ==> acc.scale_of() <= 8,
        decreases n - i,
    {
        let ghost t = trades@[i as int];
        proof {
            assert(trades@.subrange(0, i + 1).drop_last() =~= trades@.subrange(0, i as int));
            assert(trades@.subrange(0, i + 1).last() == t);
            if ranged {
                assert(t.size.in_range());
                lemma_magnitude_prefix(trades@, i + 1);
                lemma_window_bounded(trades@.subrange(0, i + 1), now);
            }
        }
        let ts = trades[i].timestamp;
        if now <= ts && ts - now < DAY_NANOS {
            proof {
                if ranged {
                    lemma_fits(acc.value() + t.size.value(), super::decimal::max_nat(acc.scale_of(), t.size.scale_of()));
                } else {
                    assert(in_window(trades@[i as int], now));
                }
            }
            acc = acc.add(trades[i].size);
        }
        i += 1;
    }
    proof {
        assert(trades@.subrange(0, n as int) =~= trades@);
    }
    acc
}

} // verus!

verus! {

/// A recorded trade becomes the last trade of its pair, so that its price is
/// the pair's last price; the other pairs' trades are untouched.
pub proof fn lemma_recorded_trade_is_last(trades: Seq<Trade>, t: Trade)
    ensures
        trades_of(trades.push(t), t.trading_pair@) == trades_of(trades, t.trading_pair@).push(t),
        trades_of(trades.push(t), t.trading_pair@).last() == t,
        forall|q: TradingPairView| q != t.trading_pair@ ==> #[trigger] trades_of(trades.push(t), q) == trades_of(trades, q),
{
    assert(trades.push(t).drop_last() =~= trades);
}

} // verus!

verus! {

impl Default for TradeHistory {
    fn default() -> (r: Self)
        ensures
            r.wf(),
            r.trades() == Seq::<Trade>::empty(),
    {
        TradeHistory::new()
    }
}

} // verus!
