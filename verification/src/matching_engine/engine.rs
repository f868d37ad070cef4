//! The matching engine: one order book per market, the trade history and the
//! market data.
use super::decimal::{exact_limit, lemma_fits, lemma_pow10_20, max_nat, range_limit, within_max, Decimal};
use super::errors::{MatchingEngineError, MatchingEngineResult};
use super::market_data::{
    current_stats, stats_consistent, updated_stats, MarketDataAggregator, MarketStats, OrderBookLevel, OrderBookSnapshotView,
};
use super::orderbook::{
    aggregate, fills_in_range, inserted, lemma_bounded_by_count, lemma_match_levels_shape, levels_in_range,
    levels_open, match_levels, opposite, order_in_range, side_count, side_volume, cancel_result, Fill,
    lemma_side_count_nonneg, lemma_inserted_props, order_open, lemma_remove_at_props, remove_at, first_id_at,
    queue_has_id, bids_have_id, accepted_levels, queue_volume, side_covers, levels_exact, walk_reaches,
    reach_safe, levels_safe, levels_fits, levels_sum_safe, levels_summable, meeting_exact, trade_size,
    maker_after, taker_after,
    Orderbook, OrderbookView, BOOK_CAPACITY,
};
use super::pair_map::PairMap;
use super::priority::{
    lemma_fill_or_kill, lemma_match_keeps_uncrossed, lemma_remove_keeps_uncrossed, lemma_rest_keeps_uncrossed,
    lemma_unfilled_consumed, lemma_volume_conserved, uncrossed,
};
use super::trade::{trades_of, TradeHistory};
use super::types::{current_time, Order, OrderType, Trade, TradingPair, TradingPairView};
use super::validation::{new_order_verdict, validation_result, OrderValidator, Verdict};
use vstd::prelude::*;

verus! {

pub struct MatchingEngine {
    orderbooks: PairMap<Orderbook>,
    trade_history: TradeHistory,
    market_data: MarketDataAggregator,
}

/// The size recorded for a fill: the smaller of the maker's and the taker's
/// filled sizes after it.
pub open spec fn fill_size(f: Fill) -> Decimal {
    f.0.filled_size.min_spec(f.1.filled_size)
}

/// The trades describe the fills, one for one and in order.
pub open spec fn records_fills(new_trades: Seq<Trade>, pair: TradingPair, fills: Seq<Fill>) -> bool {
    &&& new_trades.len() == fills.len()
    &&& forall|i: int|
        0 <= i < fills.len() ==> (#[trigger] new_trades[i]).describes(
            pair,
            fills[i].2,
            fill_size(fills[i]),
            fills[i].0.id,
            fills[i].1.id,
        )
}

/// Each recorded size is no more than the filled size of either order of its
/// fill after it, and is one of the two.
pub open spec fn sizes_within(new_trades: Seq<Trade>, fills: Seq<Fill>) -> bool {
    forall|i: int|
        0 <= i < fills.len() && i < new_trades.len() ==> {
            &&& (#[trigger] new_trades[i]).size.value() <= fills[i].0.filled_size.value()
            &&& new_trades[i].size.value() <= fills[i].1.filled_size.value()
            &&& (new_trades[i].size.value() == fills[i].0.filled_size.value() || new_trades[i].size.value()
                == fills[i].1.filled_size.value())
        }
}

/// The size recorded for any fill is no more than the filled size of either
/// of its orders after it, and is one of the two.
pub proof fn lemma_recorded_size_bounds(f: Fill)
    ensures
        fill_size(f).value() <= f.0.filled_size.value(),
        fill_size(f).value() <= f.1.filled_size.value(),
        fill_size(f).value() == f.0.filled_size.value() || fill_size(f).value() == f.1.filled_size.value(),
{
}

/// When the maker or the taker of an exact meeting had filled nothing before
/// it (and neither had filled less than nothing), the size recorded for its
/// fill is exactly what the fill moved from the maker to the taker: the
/// growth of the taker's filled size, which is the growth of the maker's.
pub proof fn lemma_recorded_size_moved(maker: Order, taker: Order, price: Decimal)
    requires
        meeting_exact(maker, taker),
        0 < trade_size(maker, taker).value(),
        maker.filled_size.value() >= 0,
        taker.filled_size.value() >= 0,
        maker.filled_size.value() == 0 || taker.filled_size.value() == 0,
    ensures
        fill_size((maker_after(maker, taker), taker_after(maker, taker), price)).value() == taker_after(
            maker,
            taker,
        ).filled_size.value() - taker.filled_size.value(),
        taker_after(maker, taker).filled_size.value() - taker.filled_size.value() == maker_after(
            maker,
            taker,
        ).filled_size.value() - maker.filled_size.value(),
{
}

/// Only GTC orders rest in the book: an order of any other type never does,
/// and a GTC order does exactly when matching left it unfilled.
pub proof fn lemma_only_gtc_rests(order: Order, taker: Order)
    ensures
        order.order_type != OrderType::GTC ==> !rests(order, taker),
        order.order_type == OrderType::GTC ==> (rests(order, taker) <==> !taker.is_filled_spec()),
{
}

/// What the statistics say, leaving out when they were last updated.
pub open spec fn figures(s: MarketStats) -> (Option<Decimal>, Decimal, Option<Decimal>, Option<Decimal>, u64) {
    (s.last_price, s.volume_24h, s.high_24h, s.low_24h, s.num_trades_24h)
}

/// The statistics after each fill was reported as one trade at its price.
pub open spec fn stats_after_fills(s: MarketStats, fills: Seq<Fill>) -> MarketStats
    decreases fills.len(),
{
    if fills.len() == 0 {
        s
    } else {
        let prev = stats_after_fills(s, fills.drop_last());
        updated_stats(prev, Some(fills.last().2), fill_size(fills.last()), 1, prev.timestamp)
    }
}

/// The exact total of the recorded sizes of the fills.
pub open spec fn fills_volume(fills: Seq<Fill>) -> int
    decreases fills.len(),
{
    if fills.len() == 0 {
        0
    } else {
        fills_volume(fills.drop_last()) + fill_size(fills.last()).value()
    }
}

/// The rows of a snapshot for aggregated levels.
pub open spec fn level_rows(agg: Seq<(Decimal, Decimal, usize)>) -> Seq<OrderBookLevel> {
    agg.map_values(|t: (Decimal, Decimal, usize)| OrderBookLevel { price: t.0, size: t.1, order_count: t.2 })
}

/// A book that the engine keeps: each side in priority order with the orders
/// of that side only, and no filled order resting in it.
pub open spec fn book_ok(b: OrderbookView) -> bool {
    &&& b.wf()
    &&& levels_open(b.asks)
    &&& levels_open(b.bids)
}

/// A book whose orders all lie in the exact range, no more than a book's
/// capacity of them.
pub open spec fn book_ranged(b: OrderbookView) -> bool {
    &&& levels_in_range(b.asks)
    &&& levels_in_range(b.bids)
    &&& side_count(b.asks) + side_count(b.bids) <= BOOK_CAPACITY
}

/// Reporting the fills, one trade each, to the statistics `s` stays within
/// the types: the trade count fits in a `u64`, and each running volume plus
/// the next recorded size stays within `Decimal::MAX`.
pub open spec fn stats_room(s: MarketStats, fills: Seq<Fill>) -> bool {
    &&& s.num_trades_24h + fills.len() <= u64::MAX
    &&& forall|i: int|
        0 <= i < fills.len() ==> within_max(
            #[trigger] stats_after_fills(s, fills.subrange(0, i)).volume_24h.value() + fill_size(fills[i]).value(),
        )
}

/// The fills lie in the exact range, no more than a book's capacity of them,
/// and the market's statistics have room for them.
pub open spec fn fills_ranged(stats: Map<TradingPairView, MarketStats>, pair: TradingPairView, fills: Seq<Fill>) -> bool {
    &&& fills_in_range(fills)
    &&& fills.len() <= BOOK_CAPACITY
    &&& stats.contains_key(pair) ==> {
        &&& stats[pair].num_trades_24h + BOOK_CAPACITY <= u64::MAX
        &&& -volume_room() <= stats[pair].volume_24h.value() <= volume_room()
        &&& stats[pair].volume_24h.scale_of() <= 8
    }
}

/// Both sides of the book can be summed without overflow.
pub open spec fn book_summable(b: OrderbookView) -> bool {
    &&& levels_sum_safe(b.bids) || levels_summable(b.bids)
    &&& levels_sum_safe(b.asks) || levels_summable(b.asks)
}

/// The volume of a market's statistics leaves room for a full book's worth of
/// trades.
pub open spec fn volume_room() -> int {
    exact_limit() - BOOK_CAPACITY * range_limit()
}

/// The book, the taker and the fills after the taker was matched.
pub open spec fn after_match(book: OrderbookView, order: Order) -> (OrderbookView, Order, Seq<Fill>) {
    let m = match_levels(book.side(opposite(order.side)), order);
    (book.with_side(opposite(order.side), m.0), m.1, m.2)
}

/// A fill-or-kill order whose size the other side does not hold at prices
/// the order accepts: subtracting the remaining sizes of the orders of the
/// accepted levels from its size never brings it to zero or below.
pub open spec fn fok_refused(book: OrderbookView, order: Order) -> bool {
    &&& order.order_type == OrderType::FOK
    &&& !walk_reaches(accepted_levels(book.side(opposite(order.side)), order), order.size)
}

/// What remains of a GTC order rests in the book.
pub open spec fn rests(order: Order, taker: Order) -> bool {
    order.order_type == OrderType::GTC && !taker.is_filled_spec()
}

impl MatchingEngine {
    /// The book of each market.
    pub closed spec fn books(&self) -> Map<TradingPairView, OrderbookView> {
        self.orderbooks.map().map_values(|b: Orderbook| b@)
    }

    /// All trades, in the order they happened.
    pub closed spec fn trades(&self) -> Seq<Trade> {
        self.trade_history.trades()
    }

    /// The statistics of each market.
    pub closed spec fn stats(&self) -> Map<TradingPairView, MarketStats> {
        self.market_data.stats()
    }

    /// The snapshots of each market's book, oldest first.
    pub closed spec fn snapshots(&self) -> Map<TradingPairView, Seq<OrderBookSnapshotView>> {
        self.market_data.snapshots()
    }

    pub closed spec fn wf(&self) -> bool {
        &&& self.orderbooks.wf()
        &&& forall|i: int| 0 <= i < self.orderbooks.vals@.len() ==> book_ok((#[trigger] self.orderbooks.vals@[i])@)
        &&& self.trade_history.wf()
        &&& self.market_data.wf()
    }

    /// The order and the engine lie in the range in which the engine's
    /// decimal arithmetic is exact: the order's quantities and its book's
    /// orders are in range, the book has room for one more order, and the
    /// market's statistics have room for a full book's worth of trades.
    pub open spec fn has_room(&self, order: Order) -> bool {
        let pair = order.trading_pair@;
        &&& order_in_range(order)
        &&& self.books().contains_key(pair) ==> {
            &&& book_ranged(self.books()[pair])
            &&& side_count(self.books()[pair].asks) + side_count(self.books()[pair].bids) < BOOK_CAPACITY
        }
        &&& self.stats().contains_key(pair) ==> {
            &&& self.stats()[pair].num_trades_24h + BOOK_CAPACITY <= u64::MAX
            &&& -volume_room() <= self.stats()[pair].volume_24h.value() <= volume_room()
            &&& self.stats()[pair].volume_24h.scale_of() <= 8
        }
    }

    /// Placing the order does not overflow: for a valid order of a market
    /// that has a book, the fill-or-kill test, the matching, the reports to
    /// the statistics and the sums of the snapshot all stay within the types.
    pub open spec fn place_safe(&self, order: Order) -> bool {
        let pair = order.trading_pair@;
        let book = self.books()[pair];
        let side = book.side(opposite(order.side));
        let m = after_match(book, order);
        new_order_verdict(order) == Verdict::Valid && self.books().contains_key(pair) ==> {
            &&& order.order_type == OrderType::FOK ==> reach_safe(accepted_levels(side, order), order.size)
            &&& !fok_refused(book, order) ==> {
                &&& levels_safe(side, order)
                &&& stats_room(current_stats(self.stats(), pair, 0), m.2)
                &&& levels_sum_safe(m.0.bids)
                &&& levels_sum_safe(m.0.asks)
            }
        }
    }

    /// Whatever orders were placed and cancelled, every book keeps each side
    /// in price priority order with the orders of that side only, and no
    /// filled order rests in it.
    pub proof fn lemma_books_wf(&self)
        requires
            self.wf(),
        ensures
            forall|k: TradingPairView| #[trigger] self.books().contains_key(k) ==> book_ok(self.books()[k]),
    {
        assert forall|k: TradingPairView| #[trigger] self.books().contains_key(k) implies book_ok(self.books()[k]) by {
            let i = choose|i: int| self.orderbooks.key_at(k, i);
            self.orderbooks.lemma_map_at(i);
        }
    }

    /// Whatever orders were placed, every market's statistics are
    /// consistent: the low is no higher than the last price, which is no
    /// higher than the high.
    pub proof fn lemma_stats_consistent(&self)
        requires
            self.wf(),
        ensures
            forall|k: TradingPairView| #[trigger] self.stats().contains_key(k) ==> stats_consistent(self.stats()[k]),
    {
        self.market_data.lemma_stats_consistent();
    }

    /// Whether the order and the engine lie in the range in which the
    /// engine's decimal arithmetic is exact (`has_room`).
    pub fn has_room_for(&self, order: &Order) -> (r: bool)
        requires
            self.wf(),
        ensures
            r == self.has_room(*order),
    {
        if !(order.size.is_in_range() && order.filled_size.is_in_range()) {
            return false;
        }
        match self.orderbooks.get(&order.trading_pair) {
            Some(book) => {
                proof {
                    let i = choose|i: int| self.orderbooks.key_at(order.trading_pair@, i);
                    self.orderbooks.lemma_map_at(i);
                    assert(self.books()[order.trading_pair@] == book@);
                }
                if !book.within_exact_range() {
                    return false;
                }
            },
            None => {},
        }
        match self.market_data.get_market_stats(&order.trading_pair) {
            Some(s) => {
                let room = Decimal::from_i128_with_scale(600000000000000000000, 0);
                let neg = Decimal::from_i128_with_scale(-600000000000000000000, 0);
                proof {
                    lemma_pow10_20();
                    assert(room.value() == volume_room());
                    assert(neg.value() == -volume_room());
                }
                if s.num_trades_24h > u64::MAX - 100000 || s.volume_24h.lt(&neg) || room.lt(&s.volume_24h)
                    || s.volume_24h.scale() > 8 {
                    return false;
                }
            },
            None => {},
        }
        true
    }

    /// A book in the exact range, within capacity, is summed exactly.
    pub proof fn lemma_ranged_summable(b: OrderbookView)
        requires
            book_ranged(b),
        ensures
            levels_summable(b.asks),
            levels_summable(b.bids),
            book_summable(b),
    {
        lemma_side_count_nonneg(b.asks);
        lemma_side_count_nonneg(b.bids);
        lemma_bounded_by_count(b.asks);
        lemma_bounded_by_count(b.bids);
    }

    pub fn new() -> (r: MatchingEngine)
        ensures
            r.wf(),
            r.books() == Map::<TradingPairView, OrderbookView>::empty(),
            r.trades() == Seq::<Trade>::empty(),
            r.stats() == Map::<TradingPairView, MarketStats>::empty(),
            r.snapshots() == Map::<TradingPairView, Seq<OrderBookSnapshotView>>::empty(),
    {
        let r = MatchingEngine {
            orderbooks: PairMap::new(),
            trade_history: TradeHistory::new(),
            market_data: MarketDataAggregator::new(),
        };
        assert(r.books() =~= Map::<TradingPairView, OrderbookView>::empty());
        r
    }

    /// Opens an empty book for the market, unless it has one; whether it
    /// opened one.
    pub fn add_market(&mut self, pair: TradingPair) -> (opened: bool)
        requires
            old(self).wf(),
        ensures
            final(self).wf(),
            opened == !old(self).books().contains_key(pair@),
            opened ==> final(self).books() == old(self).books().insert(
                pair@,
                OrderbookView { asks: Seq::empty(), bids: Seq::empty() },
            ),
            !opened ==> final(self).books() == old(self).books(),
            final(self).trades() == old(self).trades(),
            final(self).stats() == old(self).stats(),
            final(self).snapshots() == old(self).snapshots(),
    {
        match self.orderbooks.position(&pair) {
            Some(i) => {
                proof {
                    self.orderbooks.lemma_map_at(i as int);
                }
                false
            },
            None => {
                let book = Orderbook::new();
                proof {
                    assert(book@ == OrderbookView { asks: Seq::empty(), bids: Seq::empty() });
                }
                self.orderbooks.insert_new(pair, book);
                proof {
                    assert(self.books() =~= old(self).books().insert(pair@, book@));
                    assert forall|i: int| 0 <= i < self.orderbooks.vals@.len() implies book_ok((#[trigger] self.orderbooks.vals@[i])@) by {
                        if i < old(self).orderbooks.vals@.len() {
                            assert(self.orderbooks.vals@[i] == old(self).orderbooks.vals@[i]);
                        }
                    }
                }
                true
            },
        }
    }
}

} // verus!

verus! {

proof fn lemma_fills_volume_bound(fills: Seq<Fill>)
    requires
        fills_in_range(fills),
    ensures
        -fills.len() * range_limit() <= fills_volume(fills) <= fills.len() * range_limit(),
    decreases fills.len(),
{
    if fills.len() > 0 {
        let init = fills.drop_last();
        assert(fills_in_range(init)) by {
            assert forall|i: int| 0 <= i < init.len() implies order_in_range((#[trigger] init[i]).0) && order_in_range(init[i].1) by {
                assert(init[i] == fills[i]);
            }
        }
        lemma_fills_volume_bound(init);
        assert(order_in_range(fills[fills.len() - 1].0));
        assert(order_in_range(fills[fills.len() - 1].1));
        let c = range_limit();
        let n = fills.len() as int;
        assert((n - 1) * c + c == n * c) by (nonlinear_arith);
    }
}

/// The rows of a snapshot for aggregated levels.
fn to_rows(levels: Vec<(Decimal, Decimal, usize)>) -> (r: Vec<OrderBookLevel>)
    ensures
        r@ == level_rows(levels@),
{
    let n = levels.len();
    let mut out: Vec<OrderBookLevel> = Vec::new();
    let mut i: usize = 0;
    while i < n
        invariant
            n == levels@.len(),
            0 <= i <= n,
            out@ == level_rows(levels@).subrange(0, i as int),
        decreases n - i,
    {
        let (price, size, order_count) = levels[i];
        out.push(OrderBookLevel { price, size, order_count });
        i += 1;
        proof {
            assert(out@ =~= level_rows(levels@).subrange(0, i as int));
        }
    }
    proof {
        assert(level_rows(levels@).subrange(0, n as int) =~= level_rows(levels@));
    }
    out
}

impl MatchingEngine {
    /// Records each fill as a trade and reports it to the market's
    /// statistics, then takes a snapshot of the market's book.
    fn process_trades(&mut self, trades: Vec<Fill>, pair: &TradingPair)
        requires
            old(self).wf(),
            stats_room(current_stats(old(self).stats(), pair@, 0), trades@) || fills_ranged(
                old(self).stats(),
                pair@,
                trades@,
            ),
            old(self).books().contains_key(pair@) ==> book_summable(old(self).books()[pair@]),
        ensures
            final(self).wf(),
            final(self).books() == old(self).books(),
            final(self).orderbooks == old(self).orderbooks,
            exists|new_trades: Seq<Trade>|
                final(self).trades() == old(self).trades() + new_trades && #[trigger] records_fills(
                    new_trades,
                    *pair,
                    trades@,
                ) && sizes_within(new_trades, trades@),
            trades@.len() == 0 ==> final(self).stats() == old(self).stats(),
            trades@.len() > 0 ==> {
                &&& final(self).stats().contains_key(pair@)
                &&& final(self).stats() == old(self).stats().insert(pair@, final(self).stats()[pair@])
                &&& figures(final(self).stats()[pair@]) == figures(
                    stats_after_fills(current_stats(old(self).stats(), pair@, 0), trades@),
                )
            },
            old(self).books().contains_key(pair@) ==> exists|t: u128|
                final(self).snapshots() == #[trigger] old(self).snapshots().insert(
                    pair@,
                    old(self).market_data.snapshots_of(pair@).push(
                        OrderBookSnapshotView {
                            bids: level_rows(aggregate(old(self).books()[pair@].bids)),
                            asks: level_rows(aggregate(old(self).books()[pair@].asks)),
                            timestamp: t,
                        },
                    ),
                ),
            !old(self).books().contains_key(pair@) ==> final(self).snapshots() == old(self).snapshots(),
    {
        let ghost cur0 = current_stats(self.stats(), pair@, 0);
        let ghost fills = trades@;
        let ghost ranged = fills_ranged(self.stats(), pair@, fills);
        let ghost mut new_trades: Seq<Trade> = Seq::empty();
        let n = trades.len();
        let mut i: usize = 0;
        proof {
            assert(fills.subrange(0, 0) =~= Seq::<Fill>::empty());
            assert(self.trades() =~= old(self).trades() + new_trades);
        }
        while i < n
            invariant
                n == fills.len(),
                fills == trades@,
                0 <= i <= n,
                ranged == fills_ranged(old(self).stats(), pair@, fills),
                !ranged ==> stats_room(cur0, fills),
                self.wf(),
                self.orderbooks == old(self).orderbooks,
                self.market_data.snapshots() == old(self).market_data.snapshots(),
                cur0 == current_stats(old(self).stats(), pair@, 0),
                ranged ==> forall|k: TradingPairView| #[trigger] self.stats().contains_key(k) && k == pair@ ==> self.stats()[k].volume_24h.scale_of() <= 8,
                self.trades() == old(self).trades() + new_trades,
                records_fills(new_trades, *pair, fills.subrange(0, i as int)),
                sizes_within(new_trades, fills.subrange(0, i as int)),
                i == 0 ==> self.stats() == old(self).stats(),
                i > 0 ==> {
                    &&& self.stats().contains_key(pair@)
                    &&& self.stats() == old(self).stats().insert(pair@, self.stats()[pair@])
                    &&& figures(self.stats()[pair@]) == figures(stats_after_fills(cur0, fills.subrange(0, i as int)))
                    &&& ranged ==> self.stats()[pair@].volume_24h.value() == cur0.volume_24h.value() + fills_volume(fills.subrange(0, i as int))
                    &&& self.stats()[pair@].num_trades_24h == cur0.num_trades_24h + i
                },
            decreases n - i,
        {
            let ghost f = fills[i as int];
            let ghost prefix = fills.subrange(0, i as int);
            proof {
                assert(fills.subrange(0, i + 1).drop_last() =~= prefix);
                assert(fills.subrange(0, i + 1).last() == f);
                if ranged {
                    assert(order_in_range(f.0) && order_in_range(f.1));
                    assert(fills_in_range(prefix)) by {
                        assert forall|j: int| 0 <= j < prefix.len() implies order_in_range((#[trigger] prefix[j]).0) && order_in_range(prefix[j].1) by {
                            assert(prefix[j] == fills[j]);
                        }
                    }
                    lemma_fills_volume_bound(prefix);
                }
            }
            let size = trades[i].0.filled_size.min(trades[i].1.filled_size);
            let price = trades[i].2;
            let trade = self.trade_history.record_trade(pair.duplicate(), price, size, &trades[i].0, &trades[i].1);
            proof {
                new_trades = new_trades.push(trade);
                assert(self.trades() =~= old(self).trades() + new_trades);
                assert forall|j: int| 0 <= j < i + 1 implies (#[trigger] new_trades[j]).describes(
                    *pair,
                    fills.subrange(0, i + 1)[j].2,
                    fill_size(fills.subrange(0, i + 1)[j]),
                    fills.subrange(0, i + 1)[j].0.id,
                    fills.subrange(0, i + 1)[j].1.id,
                ) by {
                    if j < i {
                        assert(fills.subrange(0, i + 1)[j] == prefix[j]);
                    }
                }
                assert(sizes_within(new_trades, fills.subrange(0, i + 1))) by {
                    assert forall|j: int| 0 <= j < i + 1 && j < new_trades.len() implies {
                        &&& (#[trigger] new_trades[j]).size.value() <= fills.subrange(0, i + 1)[j].0.filled_size.value()
                        &&& new_trades[j].size.value() <= fills.subrange(0, i + 1)[j].1.filled_size.value()
                        &&& (new_trades[j].size.value() == fills.subrange(0, i + 1)[j].0.filled_size.value()
                            || new_trades[j].size.value() == fills.subrange(0, i + 1)[j].1.filled_size.value())
                    } by {
                        if j < i {
                            assert(fills.subrange(0, i + 1)[j] == prefix[j]);
                        }
                    }
                }
            }
            let now = current_time();
            let ghost before_stats = self.stats();
            let ghost cur = current_stats(before_stats, pair@, now);
            proof {
                if i == 0 {
                    Decimal::lemma_zero();
                    assert(cur.volume_24h == cur0.volume_24h);
                    assert(cur.num_trades_24h == cur0.num_trades_24h);
                } else {
                    assert(cur == self.stats()[pair@]);
                }
                assert(cur.volume_24h == stats_after_fills(cur0, prefix).volume_24h);
                if ranged {
                    Decimal::lemma_zero();
                    assert(n <= BOOK_CAPACITY);
                    assert(fill_size(f) == size);
                    assert(cur.volume_24h.value() == cur0.volume_24h.value() + fills_volume(prefix)) by {
                        if i == 0 {
                            assert(prefix =~= Seq::<Fill>::empty());
                        }
                    }
                    if old(self).stats().contains_key(pair@) {
                        assert(-volume_room() <= cur0.volume_24h.value() <= volume_room());
                    } else {
                        assert(cur0.volume_24h.value() == 0);
                    }
                    let c = range_limit();
                    let k = i as int;
                    assert(k * c <= 100000 * c) by (nonlinear_arith)
                        requires
                            k <= 100000,
                            c > 0,
                    ;
                    assert(-exact_limit() <= cur.volume_24h.value() + size.value() <= exact_limit());
                    if self.market_data.stats().contains_key(pair@) {
                        assert(self.stats().contains_key(pair@));
                        assert(cur.volume_24h.scale_of() <= 8);
                    } else {
                        Decimal::lemma_zero();
                    }
                    lemma_fits(cur.volume_24h.value() + size.value(), max_nat(cur.volume_24h.scale_of(), size.scale_of()));
                } else {
                    assert(within_max(stats_after_fills(cur0, fills.subrange(0, i as int)).volume_24h.value() + fill_size(fills[i as int]).value()));
                }
            }
            self.market_data.update_market_stats_at(pair.duplicate(), Some(price), size, 1, now);
            i += 1;
            proof {
                assert(self.stats() =~= old(self).stats().insert(pair@, self.stats()[pair@]));
            }
        }
        proof {
            assert(fills.subrange(0, n as int) =~= fills);
        }
        // Update order book snapshot
        proof {
            self.lemma_books_wf();
        }
        match self.orderbooks.get(pair) {
            Some(book) => {
                proof {
                    let i = choose|i: int| self.orderbooks.key_at(pair@, i);
                    self.orderbooks.lemma_map_at(i);
                    assert(self.books()[pair@] == book@);
                }
                let (bids, asks) = book.get_aggregated_levels();
                let bid_rows = to_rows(bids);
                let ask_rows = to_rows(asks);
                let ghost b = bid_rows@;
                let ghost a = ask_rows@;
                let ghost md0 = self.market_data;
                proof {
                    let i = choose|i: int| self.orderbooks.key_at(pair@, i);
                    self.orderbooks.lemma_map_at(i);
                    assert(self.books()[pair@] == book@);
                }
                self.market_data.update_order_book(pair.duplicate(), bid_rows, ask_rows);
                proof {
                    let t = choose|t: u128|
                        self.market_data.snapshots() == md0.snapshots().insert(
                            pair@,
                            md0.snapshots_of(pair@).push(OrderBookSnapshotView { bids: b, asks: a, timestamp: t }),
                        );
                    assert(self.snapshots() == old(self).snapshots().insert(
                        pair@,
                        old(self).market_data.snapshots_of(pair@).push(
                            OrderBookSnapshotView {
                                bids: level_rows(aggregate(old(self).books()[pair@].bids)),
                                asks: level_rows(aggregate(old(self).books()[pair@].asks)),
                                timestamp: t,
                            },
                        ),
                    ));
                }
            },
            None => {},
        }
    }
}

} // verus!

verus! {

impl MatchingEngine {
    /// The snapshots of the market's book, or none.
    pub open spec fn snapshots_of(&self, pair: TradingPairView) -> Seq<OrderBookSnapshotView> {
        if self.snapshots().contains_key(pair) {
            self.snapshots()[pair]
        } else {
            Seq::empty()
        }
    }

    /// Nothing that the engine holds differs.
    pub open spec fn same_state(&self, other: &Self) -> bool {
        &&& self.books() == other.books()
        &&& self.trades() == other.trades()
        &&& self.stats() == other.stats()
        &&& self.snapshots() == other.snapshots()
    }

    /// Validates the order and matches it against its market's book.  A
    /// GTC order rests in the book with what remains of it; an IOC (or
    /// market) order never rests; a FOK order is refused, leaving the engine
    /// as it was, unless the other side holds its size at prices it accepts,
    /// and is then filled completely.  Each fill is recorded as a trade and
    /// reported to the statistics, and a snapshot of the book after matching
    /// is taken.  It is owed wherever its decimal arithmetic does not
    /// overflow (`place_safe`), and where the order and its book lie in the
    /// exact range (`has_room`, tested by `has_room_for`); in that range, or
    /// wherever the matching drops no digit, the matching is exact, and an
    /// uncrossed book stays uncrossed.
    pub fn place_order(&mut self, order: Order) -> (r: MatchingEngineResult<()>)
        requires
            old(self).wf(),
            old(self).has_room(order) || old(self).place_safe(order),
        ensures
            final(self).wf(),
            new_order_verdict(order) == Verdict::Valid && old(self).has_room(order) && old(self).books().contains_key(
                order.trading_pair@,
            ) ==> (fok_refused(
                old(self).books()[order.trading_pair@],
                order,
            ) <==> (order.order_type == OrderType::FOK && !side_covers(
                accepted_levels(old(self).books()[order.trading_pair@].side(opposite(order.side)), order),
                order.size.value(),
            ))),
            new_order_verdict(order) != Verdict::Valid ==> validation_result(order, r) && final(self).same_state(old(self)),
            order.size.value() <= 0 ==> (r matches Err(MatchingEngineError::InvalidOrderSize)) && final(self).same_state(
                old(self),
            ),
            new_order_verdict(order) == Verdict::Valid && !old(self).books().contains_key(order.trading_pair@) ==> (
            r matches Err(MatchingEngineError::OrderbookNotFound(s)) && s@ == order.trading_pair.text())
                && final(self).same_state(old(self)),
            new_order_verdict(order) == Verdict::Valid && old(self).books().contains_key(order.trading_pair@)
                && fok_refused(old(self).books()[order.trading_pair@], order) ==> (r matches Err(
                MatchingEngineError::InsufficientLiquidity,
            )) && final(self).same_state(old(self)),
            new_order_verdict(order) == Verdict::Valid && old(self).books().contains_key(order.trading_pair@)
                && !fok_refused(old(self).books()[order.trading_pair@], order) ==> {
                let pair = order.trading_pair@;
                let m = after_match(old(self).books()[pair], order);
                &&& r is Ok
                &&& old(self).has_room(order) || levels_fits(old(self).books()[pair].side(opposite(order.side)), order)
                    ==> {
                    &&& levels_exact(old(self).books()[pair].side(opposite(order.side)), order)
                    &&& side_volume(old(self).books()[pair].side(opposite(order.side))) - side_volume(
                        m.0.side(opposite(order.side)),
                    ) == m.1.filled_size.value() - order.filled_size.value()
                }
                &&& old(self).has_room(order) && order.order_type == OrderType::FOK && order.filled_size.value() >= 0
                    ==> m.1.is_filled_spec()
                &&& uncrossed(old(self).books()[pair]) && (old(self).has_room(order) || levels_fits(
                    old(self).books()[pair].side(opposite(order.side)),
                    order,
                )) ==> uncrossed(final(self).books()[pair])
                &&& final(self).books().contains_key(pair)
                &&& final(self).books() == old(self).books().insert(pair, final(self).books()[pair])
                &&& order.order_type != OrderType::GTC ==> final(self).books()[pair].side(order.side) == old(
                    self,
                ).books()[pair].side(order.side)
                &&& order.order_type == OrderType::GTC && !m.1.is_filled_spec() ==> inserted(
                    m.0.side(order.side),
                    order.side,
                    order.price->Some_0,
                    m.1,
                    final(self).books()[pair].side(order.side),
                )
                &&& !rests(order, m.1) ==> final(self).books()[pair] == m.0
                &&& rests(order, m.1) ==> {
                    &&& final(self).books()[pair].side(opposite(order.side)) == m.0.side(opposite(order.side))
                    &&& inserted(
                        m.0.side(order.side),
                        order.side,
                        order.price->Some_0,
                        m.1,
                        final(self).books()[pair].side(order.side),
                    )
                }
                &&& exists|new_trades: Seq<Trade>|
                    final(self).trades() == old(self).trades() + new_trades && #[trigger] records_fills(
                        new_trades,
                        order.trading_pair,
                        m.2,
                    ) && sizes_within(new_trades, m.2)
                &&& m.2.len() == 0 ==> final(self).stats() == old(self).stats()
                &&& m.2.len() > 0 ==> {
                    &&& final(self).stats().contains_key(pair)
                    &&& final(self).stats() == old(self).stats().insert(pair, final(self).stats()[pair])
                    &&& figures(final(self).stats()[pair]) == figures(
                        stats_after_fills(current_stats(old(self).stats(), pair, 0), m.2),
                    )
                }
                &&& exists|t: u128|
                    final(self).snapshots() == #[trigger] old(self).snapshots().insert(
                        pair,
                        old(self).snapshots_of(pair).push(
                            OrderBookSnapshotView {
                                bids: level_rows(aggregate(m.0.bids)),
                                asks: level_rows(aggregate(m.0.asks)),
                                timestamp: t,
                            },
                        ),
                    )
            },
    {
        // Validate the order
        match OrderValidator::validate_new_order(&order) {
            Ok(()) => {},
            Err(e) => {
                return Err(e);
            },
        }
        let trading_pair = order.trading_pair.duplicate();
        let idx = match self.orderbooks.position(&trading_pair) {
            Some(i) => i,
            None => {
                return Err(MatchingEngineError::OrderbookNotFound(trading_pair.to_string()));
            },
        };
        let ghost pair = trading_pair@;
        let ghost book0 = self.orderbooks.vals@[idx as int]@;
        let ghost maps0 = self.orderbooks;
        let ghost ranged = self.has_room(order);
        proof {
            self.orderbooks.lemma_map_at(idx as int);
            assert(self.books()[pair] == book0);
            assert(book_ok(book0));
            lemma_side_count_nonneg(book0.asks);
            lemma_side_count_nonneg(book0.bids);
            if ranged {
                lemma_bounded_by_count(book0.asks);
                lemma_bounded_by_count(book0.bids);
            }
        }
        let mut order = order;
        let ghost order0 = order;
        match order.order_type {
            OrderType::FOK => {
                if !self.orderbooks.vals[idx].can_fill_completely(&order) {
                    return Err(MatchingEngineError::InsufficientLiquidity);
                }
            },
            _ => {},
        }
        proof {
            if !ranged {
                assert(levels_safe(book0.side(opposite(order0.side)), order0));
            }
        }
        let trades = match self.orderbooks.vals[idx].match_order(&mut order) {
            Ok(t) => t,
            Err(e) => {
                return Err(e);
            },
        };
        let ghost book1 = self.orderbooks.vals@[idx as int]@;
        proof {
            let side = opposite(order0.side);
            lemma_match_levels_shape(book0.side(side), order0);
            if ranged || levels_fits(book0.side(side), order0) {
                lemma_volume_conserved(book0.side(side), order0);
            }
            if ranged && order0.order_type == OrderType::FOK && order0.filled_size.value() >= 0 {
                lemma_fill_or_kill(book0.side(side), order0);
            }
            PairMap::lemma_set_at(&maps0, &self.orderbooks, idx as int, self.orderbooks.vals@[idx as int]);
            assert(book1 == after_match(book0, order0).0);
            lemma_side_count_nonneg(book1.asks);
            lemma_side_count_nonneg(book1.bids);
            assert(book_ok(book1));
            if uncrossed(book0) {
                lemma_match_keeps_uncrossed(book0, order0);
            }
            if ranged {
                assert(levels_in_range(book1.asks));
                assert(levels_in_range(book1.bids));
                lemma_bounded_by_count(book1.asks);
                lemma_bounded_by_count(book1.bids);
                assert(book_summable(book1));
                assert(trades@.len() <= BOOK_CAPACITY);
                assert(fills_ranged(self.stats(), pair, trades@));
            }
            assert forall|i: int| 0 <= i < self.orderbooks.vals@.len() implies book_ok((#[trigger] self.orderbooks.vals@[i])@) by {
                if i != idx {
                    assert(self.orderbooks.vals@[i] == maps0.vals@[i]);
                }
            }
            assert(self.books() =~= old(self).books().insert(pair, book1));
        }
        let rest = match order.order_type {
            OrderType::GTC => !order.is_filled(),
            _ => false,
        };
        // Process trades and add remaining order if any
        let ghost fills = trades@;
        proof {
            assert(fills == after_match(book0, order0).2);
            assert(order == after_match(book0, order0).1);
        }
        let ghost mid = *self;
        self.process_trades(trades, &trading_pair);
        proof {
            let m = after_match(book0, order0);
            assert(mid.books()[pair] == m.0);
            assert(mid.snapshots() == old(self).snapshots());
            assert(mid.market_data.snapshots_of(pair) == old(self).snapshots_of(pair));
            let t = choose|t: u128|
                self.snapshots() == #[trigger] mid.snapshots().insert(
                    pair,
                    mid.market_data.snapshots_of(pair).push(
                        OrderBookSnapshotView {
                            bids: level_rows(aggregate(mid.books()[pair].bids)),
                            asks: level_rows(aggregate(mid.books()[pair].asks)),
                            timestamp: t,
                        },
                    ),
                );
            assert(exists|new_trades: Seq<Trade>|
                self.trades() == old(self).trades() + new_trades && #[trigger] records_fills(
                    new_trades,
                    order0.trading_pair,
                    m.2,
                ) && sizes_within(new_trades, m.2));
            assert(m.2.len() == 0 ==> self.stats() == old(self).stats());
            assert(exists|t: u128|
                    self.snapshots() == #[trigger] old(self).snapshots().insert(
                        pair,
                        old(self).snapshots_of(pair).push(
                            OrderBookSnapshotView {
                                bids: level_rows(aggregate(m.0.bids)),
                                asks: level_rows(aggregate(m.0.asks)),
                                timestamp: t,
                            },
                        ),
                    ));
        }
        if rest {
            let price = order.price.unwrap();
            let ghost maps1 = self.orderbooks;
            let ghost taker = order;
            let _ = self.orderbooks.vals[idx].add_order(price, order);
            proof {
                let book2 = self.orderbooks.vals@[idx as int]@;
                let side = opposite(order0.side);
                if uncrossed(book0) && (ranged || levels_fits(book0.side(side), order0)) {
                    lemma_unfilled_consumed(book0.side(side), side, order0);
                    assert(book2 == book1.with_side(order0.side, book2.side(order0.side)));
                    lemma_rest_keeps_uncrossed(book1, order0, price, taker, book2.side(order0.side));
                }
                lemma_inserted_props(book1.side(order0.side), order0.side, price, taker, book2.side(order0.side));
                PairMap::lemma_set_at(&maps1, &self.orderbooks, idx as int, self.orderbooks.vals@[idx as int]);
                lemma_side_count_nonneg(book2.asks);
                lemma_side_count_nonneg(book2.bids);
                assert(book_ok(book2));
                assert forall|i: int| 0 <= i < self.orderbooks.vals@.len() implies book_ok((#[trigger] self.orderbooks.vals@[i])@) by {
                    if i != idx {
                        assert(self.orderbooks.vals@[i] == maps1.vals@[i]);
                    }
                }
                assert(self.books() =~= old(self).books().insert(pair, book2));
            }
        }
        Ok(())
    }
}

} // verus!

verus! {

impl MatchingEngine {
    /// Cancels the first order with the id in the market's book (see
    /// `Orderbook::cancel_order` for which one).
    pub fn cancel_order(&mut self, pair: &TradingPair, order_id: String) -> (r: MatchingEngineResult<()>)
        requires
            old(self).wf(),
        ensures
            final(self).wf(),
            final(self).trades() == old(self).trades(),
            final(self).stats() == old(self).stats(),
            final(self).snapshots() == old(self).snapshots(),
            !old(self).books().contains_key(pair@) ==> (r matches Err(MatchingEngineError::OrderbookNotFound(s))
                && s@ == pair.text()) && final(self).books() == old(self).books(),
            old(self).books().contains_key(pair@) ==> {
                &&& final(self).books().contains_key(pair@)
                &&& final(self).books() == old(self).books().insert(pair@, final(self).books()[pair@])
                &&& cancel_result(old(self).books()[pair@], order_id@, r is Ok, final(self).books()[pair@])
                &&& uncrossed(old(self).books()[pair@]) ==> uncrossed(final(self).books()[pair@])
                &&& r is Err ==> (r matches Err(MatchingEngineError::OrderNotFound(id)) && id@ == order_id@)
            },
    {
        let idx = match self.orderbooks.position(pair) {
            Some(i) => i,
            None => {
                return Err(MatchingEngineError::OrderbookNotFound(pair.to_string()));
            },
        };
        let ghost maps0 = self.orderbooks;
        let ghost book0 = self.orderbooks.vals@[idx as int]@;
        proof {
            self.orderbooks.lemma_map_at(idx as int);
            assert(book_ok(book0));
        }
        let r = self.orderbooks.vals[idx].cancel_order(order_id.as_str());
        proof {
            let book1 = self.orderbooks.vals@[idx as int]@;
            PairMap::lemma_set_at(&maps0, &self.orderbooks, idx as int, self.orderbooks.vals@[idx as int]);
            if r is Ok {
                if bids_have_id(book0, order_id@) {
                    let (a, k) = choose|a: int, k: int|
                        0 <= a < book0.bids.len() && #[trigger] first_id_at(book0.bids[a].orders, order_id@, k) && (forall|b: int|
                            a < b < book0.bids.len() ==> !queue_has_id(#[trigger] book0.bids[b].orders, order_id@)) && book1.bids
                            == remove_at(book0.bids, a, k) && book1.asks == book0.asks;
                    lemma_remove_at_props(book0.bids, a, k);
                    if uncrossed(book0) {
                        lemma_remove_keeps_uncrossed(book0, book1, a, k);
                    }
                } else {
                    let (a, k) = choose|a: int, k: int|
                        0 <= a < book0.asks.len() && #[trigger] first_id_at(book0.asks[a].orders, order_id@, k) && (forall|b: int|
                            0 <= b < a ==> !queue_has_id(#[trigger] book0.asks[b].orders, order_id@)) && book1.asks == remove_at(
                            book0.asks,
                            a,
                            k,
                        ) && book1.bids == book0.bids;
                    lemma_remove_at_props(book0.asks, a, k);
                    if uncrossed(book0) {
                        lemma_remove_keeps_uncrossed(book0, book1, a, k);
                    }
                }
            }
            lemma_side_count_nonneg(book1.asks);
            lemma_side_count_nonneg(book1.bids);
            assert(book_ok(book1));
            assert forall|i: int| 0 <= i < self.orderbooks.vals@.len() implies book_ok((#[trigger] self.orderbooks.vals@[i])@) by {
                if i != idx {
                    assert(self.orderbooks.vals@[i] == maps0.vals@[i]);
                }
            }
            assert(self.books() =~= old(self).books().insert(pair@, book1));
        }
        r
    }

    /// The aggregated levels of the market's book: bids highest price first,
    /// asks lowest price first.  It is owed wherever the sums do not overflow
    /// (`book_summable`, which a book in the exact range meets: see
    /// `lemma_ranged_summable`); on a side in the exact range they are exact.
    pub fn get_order_book_snapshot(&self, pair: &TradingPair) -> (r: Option<(Vec<(Decimal, Decimal, usize)>, Vec<(Decimal, Decimal, usize)>)>)
        requires
            self.wf(),
            self.books().contains_key(pair@) ==> book_summable(self.books()[pair@]),
        ensures
            r is Some <==> self.books().contains_key(pair@),
            r matches Some(levels) ==> levels.0@ == aggregate(self.books()[pair@].bids) && levels.1@ == aggregate(
                self.books()[pair@].asks,
            ),
            levels_summable(self.books()[pair@].bids) ==> (r matches Some(levels) ==> forall|i: int|
                0 <= i < levels.0@.len() ==> (#[trigger] levels.0@[i]).1.value() == queue_volume(
                    self.books()[pair@].bids[i].orders,
                )),
            levels_summable(self.books()[pair@].asks) ==> (r matches Some(levels) ==> forall|i: int|
                0 <= i < levels.1@.len() ==> (#[trigger] levels.1@[i]).1.value() == queue_volume(
                    self.books()[pair@].asks[i].orders,
                )),
    {
        proof {
            self.lemma_books_wf();
        }
        match self.orderbooks.get(pair) {
            Some(book) => {
                proof {
                    let i = choose|i: int| self.orderbooks.key_at(pair@, i);
                    self.orderbooks.lemma_map_at(i);
                    assert(self.books()[pair@] == book@);
                }
                Some(book.get_aggregated_levels())
            },
            None => None,
        }
    }

    pub fn get_market_stats(&self, pair: &TradingPair) -> (r: Option<MarketStats>)
        requires
            self.wf(),
        ensures
            r == (if self.stats().contains_key(pair@) {
                Some(self.stats()[pair@])
            } else {
                None
            }),
    {
        self.market_data.get_market_stats(pair)
    }

    /// The trades of the market, in the order they happened.
    pub fn get_trades(&self, pair: &TradingPair) -> (r: Vec<Trade>)
        requires
            self.wf(),
        ensures
            r@ == trades_of(self.trades(), pair@),
    {
        self.trade_history.get_trades_by_pair(pair)
    }
}

} // verus!
