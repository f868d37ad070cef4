//! The order book of one market: price levels on each side, each a queue of
//! resting orders in arrival order.
use super::decimal::{fits_at, lemma_fits, max_nat, within_max, Decimal};
use super::errors::{MatchingEngineError, MatchingEngineResult};
use super::types::{Order, OrderSide};
use vstd::prelude::*;

verus! {

/// One execution of a taker against a maker: the maker after it, the taker
/// after it, and the level price at which it happened.
pub type Fill = (Order, Order, Decimal);

#[derive(Debug)]
pub struct Limit {
    pub price: Decimal,
    pub orders: Vec<Order>,
}

/// A price level as a price and its queue of orders.
pub struct LimitView {
    pub price: Decimal,
    pub orders: Seq<Order>,
}

impl View for Limit {
    type V = LimitView;

    open spec fn view(&self) -> LimitView {
        LimitView { price: self.price, orders: self.orders@ }
    }
}

/// The levels of a vector of limits.
pub open spec fn level_views(levels: Seq<Limit>) -> Seq<LimitView> {
    levels.map_values(|l: Limit| l@)
}

/// On the `side` of the book, a level at `p` comes before a level at `q`:
/// the lowest ask and the highest bid come first.
pub open spec fn ranks_before(side: OrderSide, p: Decimal, q: Decimal) -> bool {
    match side {
        OrderSide::Ask => p.value() < q.value(),
        OrderSide::Bid => p.value() > q.value(),
    }
}

/// The levels are in priority order, with no two at the same price.
pub open spec fn levels_sorted(levels: Seq<LimitView>, side: OrderSide) -> bool {
    forall|i: int, j: int|
        0 <= i < j < levels.len() ==> ranks_before(side, #[trigger] levels[i].price, #[trigger] levels[j].price)
}

/// Every order in the levels is on `side`.
pub open spec fn orders_on_side(levels: Seq<LimitView>, side: OrderSide) -> bool {
    forall|i: int, k: int|
        0 <= i < levels.len() && 0 <= k < levels[i].orders.len() ==> (#[trigger] levels[i].orders[k]).side
            == side
}

/// Every quantity of the order lies in the exact range.
pub open spec fn order_in_range(o: Order) -> bool {
    o.size.in_range() && o.filled_size.in_range()
}

/// Every order in the levels lies in the exact range.
pub open spec fn levels_in_range(levels: Seq<LimitView>) -> bool {
    forall|i: int, k: int|
        0 <= i < levels.len() && 0 <= k < levels[i].orders.len() ==> order_in_range(
            #[trigger] levels[i].orders[k],
        )
}

pub open spec fn opposite(side: OrderSide) -> OrderSide {
    match side {
        OrderSide::Bid => OrderSide::Ask,
        OrderSide::Ask => OrderSide::Bid,
    }
}

/// A taker may trade at `level_price`: a market order at any price, a bid at
/// no more than its limit, an ask at no less than its limit.
pub open spec fn price_acceptable(taker: Order, level_price: Decimal) -> bool {
    match taker.price {
        None => true,
        Some(limit) => match taker.side {
            OrderSide::Bid => level_price.value() <= limit.value(),
            OrderSide::Ask => level_price.value() >= limit.value(),
        },
    }
}

/// The size that a maker and a taker exchange: the smaller of what remains of
/// each (the maker's when they are equal).
pub open spec fn trade_size(maker: Order, taker: Order) -> Decimal {
    maker.remaining_spec().min_spec(taker.remaining_spec())
}

/// An order with `t` more filled.
pub open spec fn fill_order(o: Order, t: Decimal) -> Order {
    o.with_filled(o.filled_size.add_spec(t))
}

/// The maker after meeting the taker.
pub open spec fn maker_after(maker: Order, taker: Order) -> Order {
    let t = trade_size(maker, taker);
    if 0 < t.value() {
        fill_order(maker, t)
    } else {
        maker
    }
}

/// The taker after meeting the maker.
pub open spec fn taker_after(maker: Order, taker: Order) -> Order {
    let t = trade_size(maker, taker);
    if 0 < t.value() {
        fill_order(taker, t)
    } else {
        taker
    }
}

/// The fills of one meeting: one when a positive size is exchanged.
pub open spec fn meeting_fills(maker: Order, taker: Order, price: Decimal) -> Seq<Fill> {
    if 0 < trade_size(maker, taker).value() {
        seq![(maker_after(maker, taker), taker_after(maker, taker), price)]
    } else {
        seq![]
    }
}

/// A taker walks a queue at `price` from its front, meeting each maker in
/// turn, until it is filled or the queue ends.  The queue keeps its length;
/// the result is the queue, the taker and the fills afterwards.
pub open spec fn match_queue(orders: Seq<Order>, taker: Order, price: Decimal) -> (Seq<Order>, Order, Seq<Fill>)
    decreases orders.len(),
{
    if orders.len() == 0 {
        (orders, taker, seq![])
    } else {
        let maker2 = maker_after(orders[0], taker);
        let taker2 = taker_after(orders[0], taker);
        let fills = meeting_fills(orders[0], taker, price);
        if taker2.is_filled_spec() {
            (seq![maker2] + orders.subrange(1, orders.len() as int), taker2, fills)
        } else {
            let rest = match_queue(orders.subrange(1, orders.len() as int), taker2, price);
            (seq![maker2] + rest.0, rest.1, fills + rest.2)
        }
    }
}

/// The decimal arithmetic of a meeting was exact: what remains of each order
/// is its size less its filled size, and a positive trade size adds to both
/// filled sizes exactly.
pub open spec fn meeting_exact(maker: Order, taker: Order) -> bool {
    let t = trade_size(maker, taker);
    &&& maker.remaining_spec().value() == maker.size.value() - maker.filled_size.value()
    &&& taker.remaining_spec().value() == taker.size.value() - taker.filled_size.value()
    &&& 0 < t.value() ==> {
        &&& fill_order(maker, t).filled_size.value() == maker.filled_size.value() + t.value()
        &&& fill_order(taker, t).filled_size.value() == taker.filled_size.value() + t.value()
    }
}

/// Every meeting of a walk of the queue was exact.
pub open spec fn walk_exact(orders: Seq<Order>, taker: Order) -> bool
    decreases orders.len(),
{
    if orders.len() == 0 {
        true
    } else {
        &&& meeting_exact(orders[0], taker)
        &&& (taker_after(orders[0], taker).is_filled_spec() || walk_exact(
            orders.subrange(1, orders.len() as int),
            taker_after(orders[0], taker),
        ))
    }
}

/// Every meeting of a walk of the levels was exact.
pub open spec fn levels_exact(levels: Seq<LimitView>, taker: Order) -> bool
    decreases levels.len(),
{
    if levels.len() == 0 {
        true
    } else if !price_acceptable(taker, levels[0].price) {
        true
    } else {
        &&& walk_exact(levels[0].orders, taker)
        &&& (match_level(levels[0], taker).1.is_filled_spec() || levels_exact(
            levels.subrange(1, levels.len() as int),
            match_level(levels[0], taker).1,
        ))
    }
}

/// The arithmetic of a meeting stays within `Decimal::MAX`: what remains of
/// each order, and each filled size grown by a positive trade size.
pub open spec fn meeting_safe(maker: Order, taker: Order) -> bool {
    let t = trade_size(maker, taker);
    &&& within_max(maker.size.value() - maker.filled_size.value())
    &&& within_max(taker.size.value() - taker.filled_size.value())
    &&& 0 < t.value() ==> {
        &&& within_max(maker.filled_size.value() + t.value())
        &&& within_max(taker.filled_size.value() + t.value())
    }
}

/// The arithmetic of a meeting drops no digit: each result fits in 96 bits
/// at the larger scale of its operands.
pub open spec fn meeting_fits(maker: Order, taker: Order) -> bool {
    let t = trade_size(maker, taker);
    &&& fits_at(maker.size.value() - maker.filled_size.value(), max_nat(maker.size.scale_of(), maker.filled_size.scale_of()))
    &&& fits_at(taker.size.value() - taker.filled_size.value(), max_nat(taker.size.scale_of(), taker.filled_size.scale_of()))
    &&& 0 < t.value() ==> {
        &&& fits_at(maker.filled_size.value() + t.value(), max_nat(maker.filled_size.scale_of(), t.scale_of()))
        &&& fits_at(taker.filled_size.value() + t.value(), max_nat(taker.filled_size.scale_of(), t.scale_of()))
    }
}

/// Every meeting of a walk of the queue stays within `Decimal::MAX`.
pub open spec fn walk_safe(orders: Seq<Order>, taker: Order) -> bool
    decreases orders.len(),
{
    if orders.len() == 0 {
        true
    } else {
        &&& meeting_safe(orders[0], taker)
        &&& (taker_after(orders[0], taker).is_filled_spec() || walk_safe(
            orders.subrange(1, orders.len() as int),
            taker_after(orders[0], taker),
        ))
    }
}

/// Every meeting of a walk of the levels stays within `Decimal::MAX`: the
/// walk does not overflow.
pub open spec fn levels_safe(levels: Seq<LimitView>, taker: Order) -> bool
    decreases levels.len(),
{
    if levels.len() == 0 {
        true
    } else if !price_acceptable(taker, levels[0].price) {
        true
    } else {
        &&& walk_safe(levels[0].orders, taker)
        &&& (match_level(levels[0], taker).1.is_filled_spec() || levels_safe(
            levels.subrange(1, levels.len() as int),
            match_level(levels[0], taker).1,
        ))
    }
}

/// Every meeting of a walk of the queue drops no digit.
pub open spec fn walk_fits(orders: Seq<Order>, taker: Order) -> bool
    decreases orders.len(),
{
    if orders.len() == 0 {
        true
    } else {
        &&& meeting_fits(orders[0], taker)
        &&& (taker_after(orders[0], taker).is_filled_spec() || walk_fits(
            orders.subrange(1, orders.len() as int),
            taker_after(orders[0], taker),
        ))
    }
}

/// Every meeting of a walk of the levels drops no digit.
pub open spec fn levels_fits(levels: Seq<LimitView>, taker: Order) -> bool
    decreases levels.len(),
{
    if levels.len() == 0 {
        true
    } else if !price_acceptable(taker, levels[0].price) {
        true
    } else {
        &&& walk_fits(levels[0].orders, taker)
        &&& (match_level(levels[0], taker).1.is_filled_spec() || levels_fits(
            levels.subrange(1, levels.len() as int),
            match_level(levels[0], taker).1,
        ))
    }
}

/// The orders of a queue that are not filled, in queue order.
pub open spec fn resting(orders: Seq<Order>) -> Seq<Order>
    decreases orders.len(),
{
    if orders.len() == 0 {
        orders
    } else {
        let rest = resting(orders.drop_last());
        if orders.last().is_filled_spec() {
            rest
        } else {
            rest.push(orders.last())
        }
    }
}

/// A taker meets a level: it walks the queue, then the filled orders leave it.
pub open spec fn match_level(level: LimitView, taker: Order) -> (LimitView, Order, Seq<Fill>) {
    let q = match_queue(level.orders, taker, level.price);
    (LimitView { price: level.price, orders: resting(q.0) }, q.1, q.2)
}

/// A taker walks the levels of the other side in priority order, while their
/// price is acceptable and it is not filled.  The levels keep their number and
/// prices (a level that empties stays).
pub open spec fn match_levels(levels: Seq<LimitView>, taker: Order) -> (Seq<LimitView>, Order, Seq<Fill>)
    decreases levels.len(),
{
    if levels.len() == 0 {
        (levels, taker, seq![])
    } else if !price_acceptable(taker, levels[0].price) {
        (levels, taker, seq![])
    } else {
        let m = match_level(levels[0], taker);
        if m.1.is_filled_spec() {
            (seq![m.0] + levels.subrange(1, levels.len() as int), m.1, m.2)
        } else {
            let rest = match_levels(levels.subrange(1, levels.len() as int), m.1);
            (seq![m.0] + rest.0, rest.1, m.2 + rest.2)
        }
    }
}

/// Both orders of every fill lie in the exact range.
pub open spec fn fills_in_range(fills: Seq<Fill>) -> bool {
    forall|i: int| 0 <= i < fills.len() ==> order_in_range((#[trigger] fills[i]).0) && order_in_range(fills[i].1)
}

/// The order is not filled: some of it remains.
pub open spec fn order_open(o: Order) -> bool {
    !o.is_filled_spec()
}

/// No order of the levels is filled.
pub open spec fn levels_open(levels: Seq<LimitView>) -> bool {
    forall|i: int, k: int|
        0 <= i < levels.len() && 0 <= k < levels[i].orders.len() ==> order_open(
            #[trigger] levels[i].orders[k],
        )
}

/// The exact total of what remains of the orders of a queue.
pub open spec fn queue_volume(orders: Seq<Order>) -> int
    decreases orders.len(),
{
    if orders.len() == 0 {
        0
    } else {
        queue_volume(orders.drop_last()) + (orders.last().size.value()
            - orders.last().filled_size.value())
    }
}

/// The total of what remains of the orders of a queue, summed from zero in
/// queue order with the decimal addition.
pub open spec fn volume_sum(orders: Seq<Order>) -> Decimal
    decreases orders.len(),
{
    if orders.len() == 0 {
        Decimal::zero_spec()
    } else {
        volume_sum(orders.drop_last()).add_spec(orders.last().remaining_spec())
    }
}

pub open spec fn magnitude(x: int) -> int {
    if x < 0 {
        -x
    } else {
        x
    }
}

/// The exact total of the magnitudes of what remains of the orders of a
/// queue: a bound on every running total of the queue.
pub open spec fn queue_magnitude(orders: Seq<Order>) -> int
    decreases orders.len(),
{
    if orders.len() == 0 {
        0
    } else {
        queue_magnitude(orders.drop_last()) + magnitude(
            orders.last().size.value() - orders.last().filled_size.value(),
        )
    }
}

/// Each level's queue stays within the range where its running totals are
/// computed exactly.
pub open spec fn levels_magnitude_bounded(levels: Seq<LimitView>) -> bool {
    forall|i: int| 0 <= i < levels.len() ==> queue_magnitude(#[trigger] levels[i].orders) <= super::decimal::exact_limit()
}

/// The resting orders of the levels, in priority order.
pub open spec fn flatten_levels(levels: Seq<LimitView>) -> Seq<Order>
    decreases levels.len(),
{
    if levels.len() == 0 {
        Seq::empty()
    } else {
        levels[0].orders + flatten_levels(levels.subrange(1, levels.len() as int))
    }
}

/// `k` is the first position of the queue that holds an order with the id.
pub open spec fn first_id_at(orders: Seq<Order>, id: Seq<char>, k: int) -> bool {
    &&& 0 <= k < orders.len()
    &&& orders[k].id@ == id
    &&& forall|j: int| 0 <= j < k ==> (#[trigger] orders[j]).id@ != id
}

/// The queue holds an order with the id.
pub open spec fn queue_has_id(orders: Seq<Order>, id: Seq<char>) -> bool {
    exists|k: int| 0 <= k < orders.len() && (#[trigger] orders[k]).id@ == id
}

/// The levels with the level at `a` missing its order at `k`.
pub open spec fn remove_at(levels: Seq<LimitView>, a: int, k: int) -> Seq<LimitView> {
    levels.update(a, LimitView { price: levels[a].price, orders: levels[a].orders.remove(k) })
}

/// The exact total of what remains of all orders of the levels.
pub open spec fn side_volume(levels: Seq<LimitView>) -> int
    decreases levels.len(),
{
    if levels.len() == 0 {
        0
    } else {
        side_volume(levels.drop_last()) + queue_volume(levels.last().orders)
    }
}

/// The number of orders of the levels.
pub open spec fn side_count(levels: Seq<LimitView>) -> int
    decreases levels.len(),
{
    if levels.len() == 0 {
        0
    } else {
        side_count(levels.drop_last()) + levels.last().orders.len()
    }
}

/// Every step of summing what remains of the orders of the queue stays
/// within `Decimal::MAX`.
pub open spec fn sum_safe(orders: Seq<Order>) -> bool {
    forall|k: int|
        0 <= k < orders.len() ==> {
            &&& within_max((#[trigger] orders[k]).size.value() - orders[k].filled_size.value())
            &&& within_max(volume_sum(orders.subrange(0, k)).value() + orders[k].remaining_spec().value())
        }
}

/// The orders of the queue lie in the exact range and their total stays
/// where it is computed exactly.
pub open spec fn queue_summable(orders: Seq<Order>) -> bool {
    &&& forall|k: int| 0 <= k < orders.len() ==> order_in_range(#[trigger] orders[k])
    &&& queue_magnitude(orders) <= super::decimal::exact_limit()
}

/// Every level of the side can be summed without overflow.
pub open spec fn levels_sum_safe(levels: Seq<LimitView>) -> bool {
    forall|i: int| 0 <= i < levels.len() ==> sum_safe(#[trigger] levels[i].orders)
}

/// The side's levels lie in the exact range and are summed exactly.
pub open spec fn levels_summable(levels: Seq<LimitView>) -> bool {
    levels_in_range(levels) && levels_magnitude_bounded(levels)
}

/// The exact total of the magnitudes of what remains of all orders of the
/// levels.
pub open spec fn side_magnitude(levels: Seq<LimitView>) -> int
    decreases levels.len(),
{
    if levels.len() == 0 {
        0
    } else {
        side_magnitude(levels.drop_last()) + queue_magnitude(levels.last().orders)
    }
}

/// What remains of the orders of the levels, taken in priority order up to
/// the `k` first orders of the level at `a`.
pub open spec fn prefix_volume(levels: Seq<LimitView>, a: int, k: int) -> int {
    side_volume(levels.subrange(0, a)) + queue_volume(levels[a].orders.subrange(0, k))
}

/// Walking the orders of the levels in priority order, what remains of them
/// reaches `size` after some order.
pub open spec fn side_covers(levels: Seq<LimitView>, size: int) -> bool {
    exists|a: int, k: int|
        0 <= a < levels.len() && 1 <= k <= levels[a].orders.len() && #[trigger] prefix_volume(levels, a, k) >= size
}

/// What is left of `size` once the remaining sizes of the orders of the
/// levels, in priority order up to the `k` first orders of the level at `a`,
/// are subtracted from it one after another with the decimal subtraction.
pub open spec fn left_after(levels: Seq<LimitView>, size: Decimal, a: int, k: int) -> Decimal
    decreases a, k,
{
    if a <= 0 && k <= 0 {
        size
    } else if k <= 0 {
        left_after(levels, size, a - 1, levels[a - 1].orders.len() as int)
    } else {
        left_after(levels, size, a, k - 1).sub_spec(levels[a].orders[k - 1].remaining_spec())
    }
}

/// The walk of the levels brings `size` to zero or below after some order.
pub open spec fn walk_reaches(levels: Seq<LimitView>, size: Decimal) -> bool {
    exists|a: int, k: int|
        0 <= a < levels.len() && 1 <= k <= levels[a].orders.len() && #[trigger] left_after(levels, size, a, k).value()
            <= 0
}

/// Every step that the walk takes stays within `Decimal::MAX`: the step
/// that subtracts the order at `j` of the level at `a` is taken while every
/// step before it left more than zero.
pub open spec fn reach_safe(levels: Seq<LimitView>, size: Decimal) -> bool {
    forall|a: int, j: int|
        #![trigger levels[a].orders[j]]
        0 <= a < levels.len() && 0 <= j < levels[a].orders.len() && (forall|a2: int, k2: int|
            0 <= a2 && 1 <= k2 <= levels[a2].orders.len() && (a2 < a || (a2 == a && k2 <= j)) ==> #[trigger] left_after(
                levels,
                size,
                a2,
                k2,
            ).value() > 0) ==> {
            &&& within_max(levels[a].orders[j].size.value() - levels[a].orders[j].filled_size.value())
            &&& within_max(left_after(levels, size, a, j).value() - levels[a].orders[j].remaining_spec().value())
        }
}

/// The number of levels that lead the side at prices the taker accepts.
pub open spec fn accepted_len(levels: Seq<LimitView>, taker: Order) -> int
    decreases levels.len(),
{
    if levels.len() == 0 || !price_acceptable(taker, levels[0].price) {
        0
    } else {
        1 + accepted_len(levels.subrange(1, levels.len() as int), taker)
    }
}

/// The levels that lead the side at prices the taker accepts.
pub open spec fn accepted_levels(levels: Seq<LimitView>, taker: Order) -> Seq<LimitView> {
    levels.subrange(0, accepted_len(levels, taker))
}

/// Price, total remaining size and number of orders of each level.
pub open spec fn aggregate(levels: Seq<LimitView>) -> Seq<(Decimal, Decimal, usize)> {
    levels.map_values(|l: LimitView| (l.price, volume_sum(l.orders), l.orders.len() as usize))
}

/// Some bid level holds an order with the id.
pub open spec fn bids_have_id(book: OrderbookView, id: Seq<char>) -> bool {
    exists|a: int| 0 <= a < book.bids.len() && queue_has_id(#[trigger] book.bids[a].orders, id)
}

/// Some ask level holds an order with the id.
pub open spec fn asks_have_id(book: OrderbookView, id: Seq<char>) -> bool {
    exists|a: int| 0 <= a < book.asks.len() && queue_has_id(#[trigger] book.asks[a].orders, id)
}

/// Cancelling the id in `before` succeeds (`ok`) exactly when some order has
/// it and leaves `after`: the first such order in the lowest bid level that
/// has one is removed, or, when no bid has it, the first in the lowest ask
/// level that has one.  A failed cancellation changes nothing.
pub open spec fn cancel_result(before: OrderbookView, id: Seq<char>, ok: bool, after: OrderbookView) -> bool {
    &&& ok <==> (bids_have_id(before, id) || asks_have_id(before, id))
    &&& ok && bids_have_id(before, id) ==> exists|a: int, k: int|
        0 <= a < before.bids.len() && #[trigger] first_id_at(before.bids[a].orders, id, k) && (forall|b: int|
            a < b < before.bids.len() ==> !queue_has_id(#[trigger] before.bids[b].orders, id)) && after.bids
            == remove_at(before.bids, a, k) && after.asks == before.asks
    &&& ok && !bids_have_id(before, id) ==> exists|a: int, k: int|
        0 <= a < before.asks.len() && #[trigger] first_id_at(before.asks[a].orders, id, k) && (forall|b: int|
            0 <= b < a ==> !queue_has_id(#[trigger] before.asks[b].orders, id)) && after.asks == remove_at(
            before.asks,
            a,
            k,
        ) && after.bids == before.bids
    &&& !ok ==> after == before
}

#[derive(Debug)]
pub struct Orderbook {
    asks: Vec<Limit>,
    bids: Vec<Limit>,
}

/// Both sides of a book, each in priority order (best price first).
pub struct OrderbookView {
    pub asks: Seq<LimitView>,
    pub bids: Seq<LimitView>,
}

impl OrderbookView {
    pub open spec fn side(self, side: OrderSide) -> Seq<LimitView> {
        match side {
            OrderSide::Ask => self.asks,
            OrderSide::Bid => self.bids,
        }
    }

    pub open spec fn with_side(self, side: OrderSide, levels: Seq<LimitView>) -> OrderbookView {
        match side {
            OrderSide::Ask => OrderbookView { asks: levels, bids: self.bids },
            OrderSide::Bid => OrderbookView { asks: self.asks, bids: levels },
        }
    }

    pub open spec fn wf(self) -> bool {
        &&& levels_sorted(self.asks, OrderSide::Ask)
        &&& levels_sorted(self.bids, OrderSide::Bid)
        &&& orders_on_side(self.asks, OrderSide::Ask)
        &&& orders_on_side(self.bids, OrderSide::Bid)
    }
}

impl View for Orderbook {
    type V = OrderbookView;

    closed spec fn view(&self) -> OrderbookView {
        OrderbookView { asks: level_views(self.asks@), bids: level_views(self.bids@) }
    }
}

/// One meeting of the taker with a maker at `price`: both are filled by the
/// trade size when it is positive, and the fill is recorded.
fn meet(maker: &Order, taker: &mut Order, price: Decimal, trades: &mut Vec<Fill>) -> (r: Order)
    requires
        meeting_safe(*maker, *old(taker)) || (order_in_range(*maker) && order_in_range(*old(taker))),
    ensures
        meeting_fits(*maker, *old(taker)) ==> meeting_exact(*maker, *old(taker)),
        order_in_range(*maker) && order_in_range(*old(taker)) ==> {
            &&& meeting_fits(*maker, *old(taker))
            &&& order_in_range(r)
            &&& order_in_range(*final(taker))
            &&& fills_in_range(old(trades)@) ==> fills_in_range(final(trades)@)
        },
        r == maker_after(*maker, *old(taker)),
        *final(taker) == taker_after(*maker, *old(taker)),
        final(trades)@ == old(trades)@ + meeting_fills(*maker, *old(taker), price),
{
    let ghost before = *taker;
    let ghost ranged = order_in_range(*maker) && order_in_range(*taker);
    let zero = Decimal::zero();
    proof {
        Decimal::lemma_zero();
        if ranged {
            lemma_fits(maker.size.value() - maker.filled_size.value(), max_nat(maker.size.scale_of(), maker.filled_size.scale_of()));
            lemma_fits(taker.size.value() - taker.filled_size.value(), max_nat(taker.size.scale_of(), taker.filled_size.scale_of()));
        }
    }
    let maker_rem = maker.remaining_size();
    let taker_rem = taker.remaining_size();
    let t = maker_rem.min(taker_rem);
    if zero.lt(&t) {
        proof {
            if ranged {
                lemma_fits(maker.filled_size.value() + t.value(), max_nat(maker.filled_size.scale_of(), t.scale_of()));
                lemma_fits(taker.filled_size.value() + t.value(), max_nat(taker.filled_size.scale_of(), t.scale_of()));
            }
        }
        let mut m = maker.duplicate();
        m.filled_size = maker.filled_size.add(t);
        taker.filled_size = taker.filled_size.add(t);
        trades.push((m.duplicate(), taker.duplicate(), price));
        proof {
            assert(trades@ =~= old(trades)@ + meeting_fills(*maker, before, price));
            if ranged && fills_in_range(old(trades)@) {
                assert forall|i: int| 0 <= i < trades@.len() implies order_in_range((#[trigger] trades@[i]).0) && order_in_range(trades@[i].1) by {
                    if i < old(trades)@.len() {
                        assert(trades@[i] == old(trades)@[i]);
                    }
                }
            }
        }
        m
    } else {
        proof {
            assert(trades@ =~= old(trades)@ + meeting_fills(*maker, before, price));
            assert(trades@ =~= old(trades)@);
        }
        maker.duplicate()
    }
}

/// The orders of the queue that are not filled, in queue order.
fn remove_filled(orders: &Vec<Order>, Ghost(side): Ghost<OrderSide>) -> (r: Vec<Order>)
    requires
        forall|i: int| 0 <= i < orders@.len() ==> (#[trigger] orders@[i]).side == side,
    ensures
        r@ == resting(orders@),
        (forall|i: int| 0 <= i < orders@.len() ==> order_in_range(#[trigger] orders@[i])) ==> forall|i: int|
            0 <= i < r@.len() ==> order_in_range(#[trigger] r@[i]),
        forall|i: int| 0 <= i < r@.len() ==> order_open(#[trigger] r@[i]),
        forall|i: int| 0 <= i < r@.len() ==> (#[trigger] r@[i]).side == side,
{
    let n = orders.len();
    let ghost ranged = forall|i: int| 0 <= i < n ==> order_in_range(#[trigger] orders@[i]);
    let mut kept: Vec<Order> = Vec::new();
    let mut k: usize = 0;
    proof {
        assert(orders@.subrange(0, 0) =~= Seq::<Order>::empty());
    }
    while k < n
        invariant
            n == orders@.len(),
            0 <= k <= n,
            kept@ == resting(orders@.subrange(0, k as int)),
            ranged ==> forall|i: int| 0 <= i < kept@.len() ==> order_in_range(#[trigger] kept@[i]),
            forall|i: int| 0 <= i < kept@.len() ==> order_open(#[trigger] kept@[i]),
            forall|i: int| 0 <= i < kept@.len() ==> (#[trigger] kept@[i]).side == side,
            ranged == (forall|i: int| 0 <= i < n ==> order_in_range(#[trigger] orders@[i])),
            forall|i: int| 0 <= i < n ==> (#[trigger] orders@[i]).side == side,
        decreases n - k,
    {
        proof {
            assert(orders@.subrange(0, k + 1).drop_last() =~= orders@.subrange(0, k as int));
        }
        if !orders[k].is_filled() {
            kept.push(orders[k].duplicate());
        }
        k += 1;
    }
    proof {
        assert(orders@.subrange(0, n as int) =~= orders@);
    }
    kept
}

/// The queue, the taker and the fills lie in the exact range.
pub open spec fn queue_ranged(orders: Seq<Order>, taker: Order, trades: Seq<Fill>) -> bool {
    &&& order_in_range(taker)
    &&& fills_in_range(trades)
    &&& forall|k: int| 0 <= k < orders.len() ==> order_in_range(#[trigger] orders[k])
}

/// A taker walks the queue of a level and the filled orders leave it.
fn match_at_level(level: &mut Limit, order: &mut Order, trades: &mut Vec<Fill>, Ghost(side): Ghost<OrderSide>)
    requires
        forall|k: int| 0 <= k < old(level).orders@.len() ==> (#[trigger] old(level).orders@[k]).side == side,
        walk_safe(old(level)@.orders, *old(order)) || queue_ranged(old(level)@.orders, *old(order), old(trades)@),
    ensures
        ({
            let m = match_level(old(level)@, *old(order));
            &&& final(level)@ == m.0
            &&& *final(order) == m.1
            &&& final(trades)@ == old(trades)@ + m.2
        }),
        walk_fits(old(level)@.orders, *old(order)) ==> walk_exact(old(level)@.orders, *old(order)),
        queue_ranged(old(level)@.orders, *old(order), old(trades)@) ==> {
            &&& walk_exact(old(level)@.orders, *old(order))
            &&& queue_ranged(final(level)@.orders, *final(order), final(trades)@)
        },
        forall|k: int| 0 <= k < final(level).orders@.len() ==> order_open(#[trigger] final(level).orders@[k]),
        forall|k: int| 0 <= k < final(level).orders@.len() ==> (#[trigger] final(level).orders@[k]).side == side,
        final(level).price == old(level).price,
{
    let ghost level0 = level@;
    let ghost taker0 = *order;
    let ghost trades0 = trades@;
    let ghost ranged = queue_ranged(level0.orders, taker0, trades0);
    let ghost fits0 = walk_fits(level0.orders, taker0);
    let price = level.price;
    let mut orders: Vec<Order> = Vec::new();
    std::mem::swap(&mut orders, &mut level.orders);
    let n = orders.len();
    let mut j: usize = 0;
    proof {
        assert(level0.orders.subrange(0, n as int) =~= level0.orders);
        assert(orders@.subrange(0, 0) =~= Seq::<Order>::empty());
    }
    while j < n
        invariant_except_break
            orders@.subrange(j as int, n as int) == level0.orders.subrange(j as int, n as int),
            ({
                let full = match_queue(level0.orders, taker0, price);
                let rest = match_queue(level0.orders.subrange(j as int, n as int), *order, price);
                &&& full.0 == orders@.subrange(0, j as int) + rest.0
                &&& full.1 == rest.1
                &&& trades0 + full.2 == trades@ + rest.2
            }),
            ranged || fits0 ==> (walk_exact(level0.orders.subrange(j as int, n as int), *order) ==> walk_exact(
                level0.orders,
                taker0,
            )),
            fits0 ==> walk_fits(level0.orders.subrange(j as int, n as int), *order),
            !ranged ==> walk_safe(level0.orders.subrange(j as int, n as int), *order),
        invariant
            n == orders@.len(),
            n == level0.orders.len(),
            0 <= j <= n,
            price == level0.price,
            ranged == queue_ranged(level0.orders, taker0, trades0),
            fits0 == walk_fits(level0.orders, taker0),
            !ranged ==> walk_safe(level0.orders, taker0),
            ranged ==> queue_ranged(orders@, *order, trades@),
            forall|k: int| 0 <= k < n ==> (#[trigger] orders@[k]).side == side,
        ensures
            ({
                let full = match_queue(level0.orders, taker0, price);
                &&& full.0 == orders@
                &&& full.1 == *order
                &&& trades0 + full.2 == trades@
            }),
            ranged || fits0 ==> walk_exact(level0.orders, taker0),
        decreases n - j,
    {
        let ghost suffix = level0.orders.subrange(j as int, n as int);
        let ghost before = *order;
        let ghost trades_before = trades@;
        let ghost maker0 = orders@[j as int];
        proof {
            assert(suffix[0] == orders@.subrange(j as int, n as int)[0]);
            assert(suffix.subrange(1, suffix.len() as int) =~= level0.orders.subrange(j + 1, n as int));
            if ranged {
                assert(order_in_range(orders@[j as int]));
            }
        }
        let m = meet(&orders[j], order, price, trades);
        orders.set(j, m);
        proof {
            assert(orders@.subrange(j + 1, n as int) =~= old_suffix_tail(level0.orders, j as int));
        }
        if order.is_filled() {
            proof {
                assert(orders@ =~= orders@.subrange(0, j as int) + seq![orders@[j as int]] + level0.orders.subrange(j + 1, n as int));
                assert(trades@ == trades_before + meeting_fills(maker0, before, price));
            }
            break;
        }
        j += 1;
        proof {
            assert(orders@.subrange(0, j as int) =~= orders@.subrange(0, j - 1) + seq![orders@[j - 1]]);
        }
    }
    proof {
        if j == n {
            assert(orders@.subrange(0, n as int) =~= orders@);
            assert(level0.orders.subrange(n as int, n as int) =~= Seq::<Order>::empty());
        }
    }
    level.orders = remove_filled(&orders, Ghost(side));
}

/// The levels, the taker and the fills lie in the exact range.
pub open spec fn side_ranged(levels: Seq<LimitView>, taker: Order, trades: Seq<Fill>) -> bool {
    &&& order_in_range(taker)
    &&& fills_in_range(trades)
    &&& levels_in_range(levels)
}

/// A taker walks the levels of one side of the book in priority order.
fn match_side(levels: &mut Vec<Limit>, order: &mut Order, trades: &mut Vec<Fill>, Ghost(side): Ghost<OrderSide>)
    requires
        orders_on_side(level_views(old(levels)@), side),
        levels_safe(level_views(old(levels)@), *old(order)) || side_ranged(
            level_views(old(levels)@),
            *old(order),
            old(trades)@,
        ),
    ensures
        ({
            let m = match_levels(level_views(old(levels)@), *old(order));
            &&& level_views(final(levels)@) == m.0
            &&& *final(order) == m.1
            &&& final(trades)@ == old(trades)@ + m.2
        }),
        levels_fits(level_views(old(levels)@), *old(order)) ==> levels_exact(level_views(old(levels)@), *old(order)),
        side_ranged(level_views(old(levels)@), *old(order), old(trades)@) ==> {
            &&& levels_exact(level_views(old(levels)@), *old(order))
            &&& side_ranged(level_views(final(levels)@), *final(order), final(trades)@)
        },
        final(levels)@.len() == old(levels)@.len(),
        forall|k: int| 0 <= k < final(levels)@.len() ==> (#[trigger] final(levels)@[k]).price == old(levels)@[k].price,
        orders_on_side(level_views(final(levels)@), side),
        levels_open(level_views(old(levels)@)) ==> levels_open(level_views(final(levels)@)),
{
    let ghost open0 = levels_open(level_views(levels@));
    let ghost levels0 = level_views(levels@);
    let ghost prices0 = levels@;
    let ghost taker0 = *order;
    let ghost trades0 = trades@;
    let ghost ranged = side_ranged(levels0, taker0, trades0);
    let ghost fits0 = levels_fits(levels0, taker0);
    let n = levels.len();
    let mut i: usize = 0;
    proof {
        assert(levels0.subrange(0, n as int) =~= levels0);
        assert(level_views(levels@).subrange(0, 0) =~= Seq::<LimitView>::empty());
    }
    while i < n
        invariant_except_break
            level_views(levels@).subrange(i as int, n as int) == levels0.subrange(i as int, n as int),
            ({
                let full = match_levels(levels0, taker0);
                let rest = match_levels(levels0.subrange(i as int, n as int), *order);
                &&& full.0 == level_views(levels@).subrange(0, i as int) + rest.0
                &&& full.1 == rest.1
                &&& trades0 + full.2 == trades@ + rest.2
            }),
            ranged || fits0 ==> (levels_exact(levels0.subrange(i as int, n as int), *order) ==> levels_exact(
                levels0,
                taker0,
            )),
            fits0 ==> levels_fits(levels0.subrange(i as int, n as int), *order),
            !ranged ==> levels_safe(levels0.subrange(i as int, n as int), *order),
        invariant
            n == levels@.len(),
            n == levels0.len(),
            n == prices0.len(),
            0 <= i <= n,
            forall|k: int| 0 <= k < n ==> (#[trigger] levels@[k]).price == prices0[k].price,
            ranged == side_ranged(levels0, taker0, trades0),
            fits0 == levels_fits(levels0, taker0),
            ranged ==> side_ranged(level_views(levels@), *order, trades@),
            orders_on_side(level_views(levels@), side),
            open0 ==> levels_open(level_views(levels@)),
        ensures
            ({
                let full = match_levels(levels0, taker0);
                &&& full.0 == level_views(levels@)
                &&& full.1 == *order
                &&& trades0 + full.2 == trades@
            }),
            ranged || fits0 ==> levels_exact(levels0, taker0),
        decreases n - i,
    {
        let ghost views = level_views(levels@);
        let ghost suffix = levels0.subrange(i as int, n as int);
        let ghost before = *order;
        let ghost trades_before = trades@;
        proof {
            assert(suffix[0] == views.subrange(i as int, n as int)[0]);
            assert(suffix.subrange(1, suffix.len() as int) =~= levels0.subrange(i + 1, n as int));
        }
        let acceptable = match order.price {
            None => true,
            Some(limit) => match order.side {
                OrderSide::Bid => levels[i].price.le(&limit),
                OrderSide::Ask => levels[i].price.ge(&limit),
            },
        };
        if !acceptable {
            proof {
                assert(views =~= views.subrange(0, i as int) + suffix);
            }
            break;
        }
        proof {
            if ranged {
                assert forall|k: int| 0 <= k < levels@[i as int].orders@.len() implies order_in_range(
                    #[trigger] levels@[i as int].orders@[k],
                ) by {
                    assert(views[i as int].orders[k] == levels@[i as int].orders@[k]);
                }
            }
            assert(suffix[0] == levels@[i as int]@);
            assert forall|k: int| 0 <= k < levels@[i as int].orders@.len() implies (
            #[trigger] levels@[i as int].orders@[k]).side == side by {
                assert(views[i as int].orders[k] == levels@[i as int].orders@[k]);
            }
        }
        match_at_level(&mut levels[i], order, trades, Ghost(side));
        proof {
            assert(level_views(levels@) =~= views.update(i as int, levels@[i as int]@));
            if ranged {
                assert forall|a: int, k: int|
                    0 <= a < level_views(levels@).len() && 0 <= k < level_views(levels@)[a].orders.len()
                    implies order_in_range(#[trigger] level_views(levels@)[a].orders[k]) by {
                    if a != i {
                        assert(level_views(levels@)[a] == views[a]);
                    } else {
                        assert(level_views(levels@)[a].orders[k] == levels@[a].orders@[k]);
                    }
                }
            }
            if open0 {
                assert forall|a: int, k: int|
                    0 <= a < level_views(levels@).len() && 0 <= k < level_views(levels@)[a].orders.len()
                    implies order_open(#[trigger] level_views(levels@)[a].orders[k]) by {
                    if a != i {
                        assert(level_views(levels@)[a] == views[a]);
                    } else {
                        assert(level_views(levels@)[a].orders[k] == levels@[a].orders@[k]);
                    }
                }
            }
            assert forall|a: int, k: int|
                0 <= a < level_views(levels@).len() && 0 <= k < level_views(levels@)[a].orders.len()
                implies (#[trigger] level_views(levels@)[a].orders[k]).side == side by {
                if a != i {
                    assert(level_views(levels@)[a] == views[a]);
                } else {
                    assert(level_views(levels@)[a].orders[k] == levels@[a].orders@[k]);
                }
            }
        }
        if order.is_filled() {
            proof {
                assert(level_views(levels@) =~= level_views(levels@).subrange(0, i as int) + seq![
                    level_views(levels@)[i as int],
                ] + levels0.subrange(i + 1, n as int));
            }
            break;
        }
        i += 1;
        proof {
            assert(level_views(levels@).subrange(0, i as int) =~= level_views(levels@).subrange(0, i - 1) + seq![
                level_views(levels@)[i - 1],
            ]);
            assert(level_views(levels@).subrange(i as int, n as int) =~= levels0.subrange(i as int, n as int));
        }
    }
    proof {
        if i == n {
            assert(level_views(levels@).subrange(0, n as int) =~= level_views(levels@));
            assert(levels0.subrange(n as int, n as int) =~= Seq::<LimitView>::empty());
        }
    }
}

spec fn old_suffix_tail(s: Seq<Order>, j: int) -> Seq<Order> {
    s.subrange(j + 1, s.len() as int)
}

} // verus!

verus! {

impl Limit {
    pub fn new(price: Decimal) -> (r: Limit)
        ensures
            r@ == (LimitView { price, orders: Seq::empty() }),
    {
        Limit { price, orders: Vec::new() }
    }

    /// What remains of the orders of the level, summed in queue order.
    fn total_volume(&self) -> (r: Decimal)
        requires
            sum_safe(self.orders@) || queue_summable(self.orders@),
        ensures
            r == volume_sum(self.orders@),
            queue_summable(self.orders@) ==> r.value() == queue_volume(self.orders@) && r.scale_of() <= 8,
    {
        let ghost ranged = queue_summable(self.orders@);
        let n = self.orders.len();
        let mut acc = Decimal::zero();
        let mut k: usize = 0;
        proof {
            Decimal::lemma_zero();
            assert(self.orders@.subrange(0, 0) =~= Seq::<Order>::empty());
        }
        while k < n
            invariant
                n == self.orders@.len(),
                0 <= k <= n,
                ranged == queue_summable(self.orders@),
                !ranged ==> sum_safe(self.orders@),
                acc == volume_sum(self.orders@.subrange(0, k as int)),
                ranged ==> acc.value() == queue_volume(self.orders@.subrange(0, k as int)),
                ranged ==> acc.scale_of() <= 8,
            decreases n - k,
        {
            let ghost o = self.orders@[k as int];
            proof {
                assert(self.orders@.subrange(0, k + 1).drop_last() =~= self.orders@.subrange(0, k as int));
                if ranged {
                    assert(order_in_range(o));
                    lemma_queue_abs(self.orders@.subrange(0, k + 1));
                    lemma_queue_magnitude_prefix(self.orders@, k + 1);
                    lemma_fits(
                        o.size.value() - o.filled_size.value(),
                        super::decimal::max_nat(o.size.scale_of(), o.filled_size.scale_of()),
                    );
                } else {
                    assert(self.orders@[k as int] == o);
                }
            }
            let rem = self.orders[k].remaining_size();
            proof {
                if ranged {
                    lemma_fits(acc.value() + rem.value(), super::decimal::max_nat(acc.scale_of(), rem.scale_of()));
                }
            }
            acc = acc.add(rem);
            k += 1;
        }
        proof {
            assert(self.orders@.subrange(0, n as int) =~= self.orders@);
        }
        acc
    }

    fn add_order(&mut self, order: Order)
        ensures
            final(self)@ == (LimitView { price: old(self).price, orders: old(self).orders@.push(order) }),
    {
        self.orders.push(order)
    }

    /// Removes the first order of the queue with the id; whether there was one.
    fn cancel_order(&mut self, order_id: &String) -> (r: bool)
        ensures
            final(self).price == old(self).price,
            r == queue_has_id(old(self).orders@, order_id@),
            r ==> exists|k: int|
                first_id_at(old(self).orders@, order_id@, k) && final(self).orders@ == old(
                    self,
                ).orders@.remove(k),
            !r ==> final(self).orders@ == old(self).orders@,
    {
        let n = self.orders.len();
        let mut k: usize = 0;
        while k < n
            invariant
                n == self.orders@.len(),
                self.orders@ == old(self).orders@,
                self.price == old(self).price,
                0 <= k <= n,
                forall|j: int| 0 <= j < k ==> (#[trigger] self.orders@[j]).id@ != order_id@,
            decreases n - k,
        {
            if self.orders[k].id == *order_id {
                proof {
                    assert(first_id_at(old(self).orders@, order_id@, k as int));
                }
                self.orders.remove(k);
                return true;
            }
            k += 1;
        }
        false
    }

    /// A copy of the level.
    fn duplicate(&self) -> (r: Limit)
        ensures
            r@ == self@,
    {
        let n = self.orders.len();
        let mut orders: Vec<Order> = Vec::new();
        let mut k: usize = 0;
        while k < n
            invariant
                n == self.orders@.len(),
                0 <= k <= n,
                orders@ == self.orders@.subrange(0, k as int),
            decreases n - k,
        {
            orders.push(self.orders[k].duplicate());
            k += 1;
            proof {
                assert(orders@ =~= self.orders@.subrange(0, k as int));
            }
        }
        proof {
            assert(self.orders@.subrange(0, n as int) =~= self.orders@);
        }
        Limit { price: self.price, orders }
    }
}

proof fn lemma_queue_volume_prefix(s: Seq<Order>, k: int)
    requires
        0 <= k <= s.len(),
        forall|j: int| 0 <= j < s.len() ==> order_open(#[trigger] s[j]),
    ensures
        0 <= queue_volume(s.subrange(0, k)) <= queue_volume(s),
    decreases s.len() - k,
{
    if k < s.len() {
        lemma_queue_volume_prefix(s, k + 1);
        assert(s.subrange(0, k + 1).drop_last() =~= s.subrange(0, k));
        assert(s.subrange(0, k + 1).last() == s[k]);
        assert(order_open(s[k]));
        lemma_queue_volume_nonneg(s.subrange(0, k));
    } else {
        assert(s.subrange(0, k) =~= s);
        lemma_queue_volume_nonneg(s);
    }
}

proof fn lemma_queue_volume_nonneg(s: Seq<Order>)
    requires
        forall|j: int| 0 <= j < s.len() ==> order_open(#[trigger] s[j]),
    ensures
        0 <= queue_volume(s),
    decreases s.len(),
{
    if s.len() > 0 {
        lemma_queue_volume_nonneg(s.drop_last());
        assert(order_open(s[s.len() - 1]));
    }
}

} // verus!

verus! {

proof fn lemma_side_volume_prefix(levels: Seq<LimitView>, a: int)
    requires
        0 <= a <= levels.len(),
        levels_open(levels),
    ensures
        0 <= side_volume(levels.subrange(0, a)) <= side_volume(levels),
        0 <= side_count(levels.subrange(0, a)) <= side_count(levels),
    decreases levels.len() - a,
{
    if a < levels.len() {
        lemma_side_volume_prefix(levels, a + 1);
        assert(levels.subrange(0, a + 1).drop_last() =~= levels.subrange(0, a));
        assert(levels.subrange(0, a + 1).last() == levels[a]);
        lemma_queue_volume_nonneg(levels[a].orders);
        let pre = levels.subrange(0, a);
        assert(levels_open(pre)) by {
            assert forall|i: int, k: int| 0 <= i < pre.len() && 0 <= k < pre[i].orders.len() implies order_open(#[trigger] pre[i].orders[k]) by {
                assert(pre[i] == levels[i]);
            }
        }
        lemma_side_volume_nonneg(pre);
    } else {
        assert(levels.subrange(0, a) =~= levels);
        lemma_side_volume_nonneg(levels);
    }
}

proof fn lemma_side_volume_nonneg(levels: Seq<LimitView>)
    requires
        levels_open(levels),
    ensures
        0 <= side_volume(levels),
        0 <= side_count(levels),
    decreases levels.len(),
{
    if levels.len() > 0 {
        let init = levels.drop_last();
        assert(levels_open(init)) by {
            assert forall|i: int, k: int| 0 <= i < init.len() && 0 <= k < init[i].orders.len() implies order_open(#[trigger] init[i].orders[k]) by {
                assert(init[i] == levels[i]);
            }
        }
        lemma_side_volume_nonneg(init);
        lemma_queue_volume_nonneg(levels.last().orders);
    }
}

/// The levels of `side` with `order` added at `price`: it joins the back of
/// the queue of the level at an equal price, or a new level at its rank.
pub open spec fn inserted(levels: Seq<LimitView>, side: OrderSide, price: Decimal, order: Order, result: Seq<LimitView>) -> bool {
    if exists|a: int| 0 <= a < levels.len() && (#[trigger] levels[a]).price.value() == price.value() {
        exists|a: int|
            0 <= a < levels.len() && (#[trigger] levels[a]).price.value() == price.value() && result
                == levels.update(a, LimitView { price: levels[a].price, orders: levels[a].orders.push(order) })
    } else {
        &&& levels_sorted(result, side)
        &&& exists|pos: int|
            0 <= pos <= levels.len() && result == levels.insert(
                pos,
                LimitView { price, orders: seq![order] },
            )
    }
}

/// Adds an order at `price` to the levels of `side`.
fn insert_order(levels: &mut Vec<Limit>, price: Decimal, order: Order, side: OrderSide)
    requires
        levels_sorted(level_views(old(levels)@), side),
    ensures
        inserted(level_views(old(levels)@), side, price, order, level_views(final(levels)@)),
        levels_sorted(level_views(final(levels)@), side),
{
    let ghost views = level_views(levels@);
    let n = levels.len();
    let mut i: usize = 0;
    while i < n
        invariant
            n == levels@.len(),
            views == level_views(levels@),
            0 <= i <= n,
            forall|j: int| 0 <= j < i ==> ranks_before(side, #[trigger] views[j].price, price),
        ensures
            0 <= i <= n,
            forall|j: int| 0 <= j < i ==> ranks_before(side, #[trigger] views[j].price, price),
            i < n ==> !ranks_before(side, views[i as int].price, price),
        decreases n - i,
    {
        let before = match side {
            OrderSide::Ask => levels[i].price.lt(&price),
            OrderSide::Bid => levels[i].price.gt(&price),
        };
        if !before {
            break;
        }
        i += 1;
    }
    let equal = i < n && levels[i].price.value_eq(&price);
    if equal {
        proof {
            assert forall|a: int| 0 <= a < views.len() && #[trigger] views[a].price.value() == price.value() implies a == i by {
                if a < i {
                    assert(ranks_before(side, views[a].price, price));
                } else if a > i {
                    assert(ranks_before(side, views[i as int].price, views[a].price));
                }
            }
        }
        levels[i].add_order(order);
        proof {
            assert(level_views(levels@) =~= views.update(
                i as int,
                LimitView { price: views[i as int].price, orders: views[i as int].orders.push(order) },
            ));
        }
    } else {
        let mut limit = Limit::new(price);
        limit.add_order(order);
        levels.insert(i, limit);
        proof {
            let nl = LimitView { price, orders: seq![order] };
            assert(limit@.orders =~= seq![order]);
            assert(level_views(levels@) =~= views.insert(i as int, nl));
            assert forall|a: int| 0 <= a < views.len() implies (#[trigger] views[a]).price.value() != price.value() by {
                if a < i {
                    assert(ranks_before(side, views[a].price, price));
                } else if a > i {
                    assert(ranks_before(side, views[i as int].price, views[a].price));
                }
            }
            let r = level_views(levels@);
            assert forall|x: int, y: int| 0 <= x < y < r.len() implies ranks_before(side, #[trigger] r[x].price, #[trigger] r[y].price) by {
                if y < i {
                    assert(r[x] == views[x] && r[y] == views[y]);
                } else if y == i {
                    assert(r[x] == views[x]);
                } else if x == i {
                    assert(r[y] == views[y - 1]);
                    assert(ranks_before(side, price, views[i as int].price));
                    if y - 1 > i {
                        assert(ranks_before(side, views[i as int].price, views[y - 1].price));
                    }
                } else if x < i {
                    assert(r[x] == views[x] && r[y] == views[y - 1]);
                } else {
                    assert(r[x] == views[x - 1] && r[y] == views[y - 1]);
                }
            }
        }
    }
}

} // verus!

verus! {

/// Whether the remaining sizes of the orders of the first `n` levels, walked
/// in priority order and subtracted from `size` one after another, bring it to
/// zero or below; the walk stops as soon as they do.
fn side_can_fill(levels: &Vec<Limit>, n: usize, size: Decimal) -> (r: bool)
    requires
        n <= levels@.len(),
        reach_safe(level_views(levels@).subrange(0, n as int), size) || (size.in_range() && levels_in_range(
            level_views(levels@),
        ) && side_magnitude(level_views(levels@)) <= super::decimal::exact_limit() - super::decimal::range_limit()),
    ensures
        r == walk_reaches(level_views(levels@).subrange(0, n as int), size),
        size.in_range() && levels_in_range(level_views(levels@)) && side_magnitude(level_views(levels@))
            <= super::decimal::exact_limit() - super::decimal::range_limit() ==> r == side_covers(
            level_views(levels@).subrange(0, n as int),
            size.value(),
        ),
{
    let ghost views = level_views(levels@);
    let ghost pv = views.subrange(0, n as int);
    let ghost ranged = size.in_range() && levels_in_range(views) && side_magnitude(views)
        <= super::decimal::exact_limit() - super::decimal::range_limit();
    proof {
        lemma_side_magnitude_prefix(views, n as int);
    }
    let mut remaining = size;
    let mut a: usize = 0;
    proof {
        assert(pv.subrange(0, 0) =~= Seq::<LimitView>::empty());
    }
    while a < n
        invariant
            n <= views.len(),
            views == level_views(levels@),
            pv == views.subrange(0, n as int),
            ranged == (size.in_range() && levels_in_range(views) && side_magnitude(views)
                <= super::decimal::exact_limit() - super::decimal::range_limit()),
            !ranged ==> reach_safe(pv, size),
            ranged ==> side_magnitude(pv) <= super::decimal::exact_limit() - super::decimal::range_limit(),
            0 <= a <= n,
            remaining == left_after(pv, size, a as int, 0),
            ranged ==> remaining.value() == size.value() - side_volume(pv.subrange(0, a as int)),
            ranged ==> remaining.scale_of() <= 8,
            forall|a2: int, k2: int|
                0 <= a2 < a && 1 <= k2 <= pv[a2].orders.len() ==> #[trigger] left_after(pv, size, a2, k2).value()
                    > 0,
            ranged ==> forall|a2: int, k2: int|
                0 <= a2 < a && 1 <= k2 <= pv[a2].orders.len() ==> #[trigger] prefix_volume(pv, a2, k2)
                    < size.value(),
        decreases n - a,
    {
        let ghost level = pv[a as int];
        let m = levels[a].orders.len();
        let mut k: usize = 0;
        proof {
            assert(level == views[a as int]);
            assert(level.orders.subrange(0, 0) =~= Seq::<Order>::empty());
        }
        while k < m
            invariant
                n <= views.len(),
                views == level_views(levels@),
                pv == views.subrange(0, n as int),
                ranged == (size.in_range() && levels_in_range(views) && side_magnitude(views)
                    <= super::decimal::exact_limit() - super::decimal::range_limit()),
                !ranged ==> reach_safe(pv, size),
                ranged ==> side_magnitude(pv) <= super::decimal::exact_limit() - super::decimal::range_limit(),
                0 <= a < n,
                level == pv[a as int],
                level == views[a as int],
                m == level.orders.len(),
                0 <= k <= m,
                remaining == left_after(pv, size, a as int, k as int),
                ranged ==> remaining.value() == size.value() - prefix_volume(pv, a as int, k as int),
                ranged ==> remaining.scale_of() <= 8,
                forall|a2: int, k2: int|
                    (0 <= a2 < a && 1 <= k2 <= pv[a2].orders.len()) || (a2 == a && 1 <= k2 <= k)
                        ==> #[trigger] left_after(pv, size, a2, k2).value() > 0,
                ranged ==> forall|a2: int, k2: int|
                    (0 <= a2 < a && 1 <= k2 <= pv[a2].orders.len()) || (a2 == a && 1 <= k2 <= k)
                        ==> #[trigger] prefix_volume(pv, a2, k2) < size.value(),
            decreases m - k,
        {
            let ghost o = level.orders[k as int];
            proof {
                assert(levels@[a as int].orders@[k as int] == o);
                assert(pv[a as int].orders[k as int] == o);
                if ranged {
                    assert(order_in_range(o));
                    assert(level.orders.subrange(0, k + 1).drop_last() =~= level.orders.subrange(0, k as int));
                    assert(level.orders.subrange(0, k + 1).last() == o);
                    lemma_prefix_bound(pv, a as int, k + 1);
                    lemma_fits(
                        o.size.value() - o.filled_size.value(),
                        super::decimal::max_nat(o.size.scale_of(), o.filled_size.scale_of()),
                    );
                } else {
                    assert forall|a2: int, k2: int|
                        0 <= a2 && 1 <= k2 <= pv[a2].orders.len() && (a2 < a || (a2 == a && k2 <= k)) implies #[trigger] left_after(
                        pv,
                        size,
                        a2,
                        k2,
                    ).value() > 0 by {}
                    assert(pv[a as int].orders[k as int] == o);
                }
            }
            let rem = levels[a].orders[k].remaining_size();
            proof {
                if ranged {
                    lemma_fits(remaining.value() - rem.value(), super::decimal::max_nat(remaining.scale_of(), rem.scale_of()));
                }
            }
            remaining = remaining.sub(rem);
            proof {
                assert(remaining == left_after(pv, size, a as int, k + 1));
            }
            let zero = Decimal::zero();
            proof {
                Decimal::lemma_zero();
            }
            if remaining.le(&zero) {
                proof {
                    assert(left_after(pv, size, a as int, k + 1).value() <= 0);
                    if ranged {
                        assert(prefix_volume(pv, a as int, k + 1) >= size.value());
                    }
                }
                return true;
            }
            k += 1;
        }
        proof {
            assert(left_after(pv, size, a + 1, 0) == left_after(pv, size, a as int, m as int));
            if ranged {
                assert(level.orders.subrange(0, m as int) =~= level.orders);
                assert(pv.subrange(0, a + 1).drop_last() =~= pv.subrange(0, a as int));
                assert(pv.subrange(0, a + 1).last() == level);
            }
        }
        a += 1;
    }
    false
}

/// Whether the taker accepts a level at `price`.
fn accepts(taker: &Order, price: &Decimal) -> (r: bool)
    ensures
        r == price_acceptable(*taker, *price),
{
    match taker.price {
        None => true,
        Some(limit) => match taker.side {
            OrderSide::Bid => price.le(&limit),
            OrderSide::Ask => price.ge(&limit),
        },
    }
}

/// The number of levels that lead the side at prices the taker accepts.
fn count_accepted(levels: &Vec<Limit>, taker: &Order) -> (r: usize)
    ensures
        r == accepted_len(level_views(levels@), *taker),
        r <= levels@.len(),
{
    let ghost views = level_views(levels@);
    let n = levels.len();
    let mut i: usize = 0;
    while i < n
        invariant
            n == views.len(),
            views == level_views(levels@),
            0 <= i <= n,
            forall|b: int| 0 <= b < i ==> price_acceptable(*taker, #[trigger] views[b].price),
        decreases n - i,
    {
        if !accepts(taker, &levels[i].price) {
            proof {
                assert(views[i as int].price == levels@[i as int].price);
                lemma_accepted_len(views, *taker, i as int);
            }
            return i;
        }
        proof {
            assert(views[i as int].price == levels@[i as int].price);
        }
        i += 1;
    }
    proof {
        lemma_accepted_len(views, *taker, n as int);
    }
    n
}

impl Orderbook {
    pub open spec fn wf(&self) -> bool {
        self@.wf()
    }

    pub fn new() -> (r: Orderbook)
        ensures
            r@.asks == Seq::<LimitView>::empty(),
            r@.bids == Seq::<LimitView>::empty(),
            r.wf(),
    {
        let r = Orderbook { asks: Vec::new(), bids: Vec::new() };
        proof {
            assert(r@.asks =~= Seq::<LimitView>::empty());
            assert(r@.bids =~= Seq::<LimitView>::empty());
        }
        r
    }

    /// Matches the order against the other side of the book, best price
    /// first and, within a price, oldest order first.  The returned fills
    /// hold the maker and the taker as they stood after each execution and
    /// the price of the level.  It is owed on every walk whose decimal
    /// arithmetic does not overflow (`levels_safe`), which quantities in the
    /// exact range never do; the arithmetic is exact whenever no result drops
    /// a digit (`levels_fits`), which quantities in the exact range never do.
    pub fn match_order(&mut self, order: &mut Order) -> (r: MatchingEngineResult<Vec<Fill>>)
        requires
            old(self).wf(),
            levels_safe(old(self)@.side(opposite(old(order).side)), *old(order)) || (order_in_range(*old(order))
                && levels_in_range(old(self)@.side(opposite(old(order).side)))),
        ensures
            final(self).wf(),
            r is Ok,
            ({
                let book_side = opposite(old(order).side);
                let m = match_levels(old(self)@.side(book_side), *old(order));
                &&& final(self)@ == old(self)@.with_side(book_side, m.0)
                &&& *final(order) == m.1
                &&& r->Ok_0@ == m.2
            }),
            levels_fits(old(self)@.side(opposite(old(order).side)), *old(order)) ==> levels_exact(
                old(self)@.side(opposite(old(order).side)),
                *old(order),
            ),
            order_in_range(*old(order)) && levels_in_range(old(self)@.side(opposite(old(order).side))) ==> {
                &&& levels_exact(old(self)@.side(opposite(old(order).side)), *old(order))
                &&& fills_in_range(r->Ok_0@)
                &&& order_in_range(*final(order))
                &&& levels_in_range(final(self)@.side(opposite(old(order).side)))
            },
            levels_open(old(self)@.side(opposite(old(order).side))) ==> levels_open(
                final(self)@.side(opposite(old(order).side)),
            ),
    {
        let mut trades: Vec<Fill> = Vec::new();
        let ghost asks0 = self.asks@;
        proof {
            assert(fills_in_range(trades@));
        }
        let ghost bids0 = self.bids@;
        match order.side {
            OrderSide::Bid => {
                match_side(&mut self.asks, order, &mut trades, Ghost(OrderSide::Ask));
                proof {
                    assert forall|i: int, j: int| 0 <= i < j < self@.asks.len() implies ranks_before(OrderSide::Ask, #[trigger] self@.asks[i].price, #[trigger] self@.asks[j].price) by {
                        assert(self.asks@[i].price == asks0[i].price);
                        assert(self.asks@[j].price == asks0[j].price);
                        assert(level_views(asks0)[i].price == asks0[i].price);
                        assert(level_views(asks0)[j].price == asks0[j].price);
                    }
                }
            },
            OrderSide::Ask => {
                match_side(&mut self.bids, order, &mut trades, Ghost(OrderSide::Bid));
                proof {
                    assert forall|i: int, j: int| 0 <= i < j < self@.bids.len() implies ranks_before(OrderSide::Bid, #[trigger] self@.bids[i].price, #[trigger] self@.bids[j].price) by {
                        assert(self.bids@[i].price == bids0[i].price);
                        assert(self.bids@[j].price == bids0[j].price);
                        assert(level_views(bids0)[i].price == bids0[i].price);
                        assert(level_views(bids0)[j].price == bids0[j].price);
                    }
                }
            },
        }
        Ok(trades)
    }

    /// Whether the other side of the book holds the order's size at prices
    /// the order accepts: walking its levels in priority order while the
    /// order accepts their price, subtracting the remaining size of each of
    /// their orders from the order's size brings it to zero or below.  It is
    /// owed wherever that walk does not overflow (`reach_safe`), which
    /// quantities in the exact range never do; there the walk is exact, and
    /// on a side of unfilled orders the result is whether the accepted levels
    /// hold an order and the size in total (see `lemma_covers_open`).
    pub fn can_fill_completely(&self, order: &Order) -> (r: bool)
        requires
            self.wf(),
            reach_safe(accepted_levels(self@.side(opposite(order.side)), *order), order.size) || (order.size.in_range()
                && levels_in_range(self@.side(opposite(order.side))) && side_magnitude(self@.side(opposite(order.side)))
                <= super::decimal::exact_limit() - super::decimal::range_limit()),
        ensures
            r == walk_reaches(accepted_levels(self@.side(opposite(order.side)), *order), order.size),
            order.size.in_range() && levels_in_range(self@.side(opposite(order.side))) && side_magnitude(
                self@.side(opposite(order.side)),
            ) <= super::decimal::exact_limit() - super::decimal::range_limit() ==> r == side_covers(
                accepted_levels(self@.side(opposite(order.side)), *order),
                order.size.value(),
            ),
    {
        match order.side {
            OrderSide::Bid => {
                let n = count_accepted(&self.asks, order);
                side_can_fill(&self.asks, n, order.size)
            },
            OrderSide::Ask => {
                let n = count_accepted(&self.bids, order);
                side_can_fill(&self.bids, n, order.size)
            },
        }
    }

    /// Rests the order at `price` on its side of the book, at the back of the
    /// queue of that price.
    pub fn add_order(&mut self, price: Decimal, order: Order) -> (r: MatchingEngineResult<()>)
        requires
            old(self).wf(),
        ensures
            r is Ok,
            final(self).wf(),
            final(self)@.side(opposite(order.side)) == old(self)@.side(opposite(order.side)),
            inserted(old(self)@.side(order.side), order.side, price, order, final(self)@.side(order.side)),
    {
        let ghost o = order;
        let ghost views0 = self@;
        let side = order.side;
        match side {
            OrderSide::Bid => {
                insert_order(&mut self.bids, price, order, OrderSide::Bid);
                proof {
                    lemma_inserted_on_side(views0.bids, OrderSide::Bid, price, o, self@.bids);
                }
            },
            OrderSide::Ask => {
                insert_order(&mut self.asks, price, order, OrderSide::Ask);
                proof {
                    lemma_inserted_on_side(views0.asks, OrderSide::Ask, price, o, self@.asks);
                }
            },
        }
        Ok(())
    }

    /// Removes the first order with the id: the bids are searched first, from
    /// the lowest price up, then the asks from the lowest price up.
    pub fn cancel_order(&mut self, order_id: &str) -> (r: MatchingEngineResult<()>)
        requires
            old(self).wf(),
        ensures
            final(self).wf(),
            cancel_result(old(self)@, order_id@, r is Ok, final(self)@),
            r is Err ==> (r matches Err(MatchingEngineError::OrderNotFound(id)) && id@ == order_id@),
    {
        let key = String::from_str(order_id);
        let ghost views0 = self@;
        // Search in bids, from the lowest price up
        let nb = self.bids.len();
        let mut a = nb;
        while a > 0
            invariant
                0 <= a <= nb,
                nb == self.bids@.len(),
                self@ == views0,
                views0 == old(self)@,
                views0.wf(),
                key@ == order_id@,
                forall|b: int| a <= b < nb ==> !queue_has_id(#[trigger] views0.bids[b].orders, order_id@),
            decreases a,
        {
            a -= 1;
            let ghost before = self.bids@;
            if self.bids[a].cancel_order(&key) {
                proof {
                    let k = choose|k: int| first_id_at(views0.bids[a as int].orders, order_id@, k) && self.bids@[a as int].orders@ == views0.bids[a as int].orders.remove(k);
                    assert(level_views(self.bids@) =~= remove_at(views0.bids, a as int, k));
                    assert(queue_has_id(views0.bids[a as int].orders, order_id@));
                    assert(first_id_at(views0.bids[a as int].orders, order_id@, k));
                    assert(self@.bids == remove_at(views0.bids, a as int, k));

                    lemma_remove_keeps_wf(views0.bids, OrderSide::Bid, a as int, k);
                    assert(self@.asks == views0.asks);
                }
                return Ok(());
            }
            proof {
                assert(level_views(self.bids@) =~= level_views(before));
            }
        }
        // Search in asks if not found in bids
        let na = self.asks.len();
        let mut a: usize = 0;
        while a < na
            invariant
                0 <= a <= na,
                na == self.asks@.len(),
                self@ == views0,
                views0 == old(self)@,
                views0.wf(),
                key@ == order_id@,
                forall|b: int| 0 <= b < views0.bids.len() ==> !queue_has_id(#[trigger] views0.bids[b].orders, order_id@),
                forall|b: int| 0 <= b < a ==> !queue_has_id(#[trigger] views0.asks[b].orders, order_id@),
            decreases na - a,
        {
            let ghost before = self.asks@;
            if self.asks[a].cancel_order(&key) {
                proof {
                    let k = choose|k: int| first_id_at(views0.asks[a as int].orders, order_id@, k) && self.asks@[a as int].orders@ == views0.asks[a as int].orders.remove(k);
                    assert(level_views(self.asks@) =~= remove_at(views0.asks, a as int, k));
                    assert(queue_has_id(views0.asks[a as int].orders, order_id@));
                    assert(first_id_at(views0.asks[a as int].orders, order_id@, k));
                    assert(self@.asks == remove_at(views0.asks, a as int, k));
                    lemma_remove_keeps_wf(views0.asks, OrderSide::Ask, a as int, k);
                    assert(self@.bids == views0.bids);
                }
                return Ok(());
            }
            proof {
                assert(level_views(self.asks@) =~= level_views(before));
            }
            a += 1;
        }
        Err(MatchingEngineError::OrderNotFound(key))
    }

    /// Copies of the ask levels, lowest price first.
    pub fn ask_limits(&self) -> (r: Vec<Limit>)
        ensures
            level_views(r@) == self@.asks,
    {
        copy_levels(&self.asks)
    }

    /// Copies of the bid levels, highest price first.
    pub fn bid_limits(&self) -> (r: Vec<Limit>)
        ensures
            level_views(r@) == self@.bids,
    {
        copy_levels(&self.bids)
    }

    /// For each level, its price, the total remaining size of its orders and
    /// their number: the bids highest price first, the asks lowest price
    /// first.  It is owed wherever the sums do not overflow
    /// (`levels_sum_safe`); on quantities in the exact range they are exact.
    pub fn get_aggregated_levels(&self) -> (r: (Vec<(Decimal, Decimal, usize)>, Vec<(Decimal, Decimal, usize)>))
        requires
            levels_sum_safe(self@.bids) || levels_summable(self@.bids),
            levels_sum_safe(self@.asks) || levels_summable(self@.asks),
        ensures
            r.0@ == aggregate(self@.bids),
            r.1@ == aggregate(self@.asks),
            levels_summable(self@.bids) ==> forall|i: int|
                0 <= i < r.0@.len() ==> (#[trigger] r.0@[i]).1.value() == queue_volume(self@.bids[i].orders),
            levels_summable(self@.asks) ==> forall|i: int|
                0 <= i < r.1@.len() ==> (#[trigger] r.1@[i]).1.value() == queue_volume(self@.asks[i].orders),
    {
        // Bids: Descending order (highest price first)
        let bids = aggregate_levels(&self.bids);
        // Asks: Ascending order (lowest price first)
        let asks = aggregate_levels(&self.asks);
        (bids, asks)
    }
}

/// Copies of the levels.
fn copy_levels(levels: &Vec<Limit>) -> (r: Vec<Limit>)
    ensures
        level_views(r@) == level_views(levels@),
{
    let n = levels.len();
    let mut out: Vec<Limit> = Vec::new();
    let mut i: usize = 0;
    while i < n
        invariant
            n == levels@.len(),
            0 <= i <= n,
            out@.len() == i,
            forall|j: int| 0 <= j < i ==> (#[trigger] out@[j])@ == levels@[j]@,
        decreases n - i,
    {
        let l = levels[i].duplicate();
        out.push(l);
        i += 1;
    }
    proof {
        assert(level_views(out@) =~= level_views(levels@));
    }
    out
}

/// Price, total remaining size and number of orders of each level.
fn aggregate_levels(levels: &Vec<Limit>) -> (r: Vec<(Decimal, Decimal, usize)>)
    requires
        levels_sum_safe(level_views(levels@)) || levels_summable(level_views(levels@)),
    ensures
        r@ == aggregate(level_views(levels@)),
        levels_summable(level_views(levels@)) ==> forall|i: int|
            0 <= i < r@.len() ==> (#[trigger] r@[i]).1.value() == queue_volume(level_views(levels@)[i].orders),
{
    let ghost views = level_views(levels@);
    let ghost ranged = levels_summable(views);
    let n = levels.len();
    let mut out: Vec<(Decimal, Decimal, usize)> = Vec::new();
    let mut i: usize = 0;
    while i < n
        invariant
            n == views.len(),
            views == level_views(levels@),
            ranged == levels_summable(views),
            !ranged ==> levels_sum_safe(views),
            0 <= i <= n,
            out@ == aggregate(views).subrange(0, i as int),
            ranged ==> forall|j: int| 0 <= j < i ==> (#[trigger] out@[j]).1.value() == queue_volume(views[j].orders),
        decreases n - i,
    {
        proof {
            assert(views[i as int] == levels@[i as int]@);
            if ranged {
                assert forall|k: int| 0 <= k < levels@[i as int].orders@.len() implies order_in_range(#[trigger] levels@[i as int].orders@[k]) by {
                    assert(views[i as int].orders[k] == levels@[i as int].orders@[k]);
                }
                assert(queue_magnitude(views[i as int].orders) <= super::decimal::exact_limit());
            } else {
                assert(sum_safe(views[i as int].orders));
            }
        }
        let volume = levels[i].total_volume();
        out.push((levels[i].price, volume, levels[i].orders.len()));
        i += 1;
        proof {
            assert(out@ =~= aggregate(views).subrange(0, i as int));
        }
    }
    proof {
        assert(aggregate(views).subrange(0, n as int) =~= aggregate(views));
    }
    out
}

/// Removing an order keeps the levels sorted and their orders on their side.
proof fn lemma_remove_keeps_wf(levels: Seq<LimitView>, side: OrderSide, a: int, k: int)
    requires
        0 <= a < levels.len(),
        0 <= k < levels[a].orders.len(),
        levels_sorted(levels, side),
        orders_on_side(levels, side),
    ensures
        levels_sorted(remove_at(levels, a, k), side),
        orders_on_side(remove_at(levels, a, k), side),
{
    let r = remove_at(levels, a, k);
    assert forall|i: int, j: int| 0 <= i < j < r.len() implies ranks_before(side, #[trigger] r[i].price, #[trigger] r[j].price) by {
        assert(r[i].price == levels[i].price);
        assert(r[j].price == levels[j].price);
    }
    assert forall|i: int, q: int| 0 <= i < r.len() && 0 <= q < r[i].orders.len() implies (#[trigger] r[i].orders[q]).side == side by {
        if i == a {
            if q < k {
                assert(r[i].orders[q] == levels[i].orders[q]);
            } else {
                assert(r[i].orders[q] == levels[i].orders[q + 1]);
            }
        }
    }
}

/// Adding an order of `side` keeps the orders of the levels on their side.
proof fn lemma_inserted_on_side(levels: Seq<LimitView>, side: OrderSide, price: Decimal, o: Order, result: Seq<LimitView>)
    requires
        inserted(levels, side, price, o, result),
        orders_on_side(levels, side),
        levels_sorted(result, side),
        o.side == side,
    ensures
        orders_on_side(result, side),
{
    if exists|a: int| 0 <= a < levels.len() && (#[trigger] levels[a]).price.value() == price.value() {
        let a = choose|a: int|
            0 <= a < levels.len() && (#[trigger] levels[a]).price.value() == price.value() && result
                == levels.update(a, LimitView { price: levels[a].price, orders: levels[a].orders.push(o) });
        assert forall|i: int, q: int| 0 <= i < result.len() && 0 <= q < result[i].orders.len() implies (#[trigger] result[i].orders[q]).side == side by {
            if i == a && q < levels[a].orders.len() {
                assert(result[i].orders[q] == levels[i].orders[q]);
            }
        }
    } else {
        let pos = choose|pos: int|
            0 <= pos <= levels.len() && result == levels.insert(pos, LimitView { price, orders: seq![o] });
        assert forall|i: int, q: int| 0 <= i < result.len() && 0 <= q < result[i].orders.len() implies (#[trigger] result[i].orders[q]).side == side by {
            if i < pos {
                assert(result[i] == levels[i]);
            } else if i > pos {
                assert(result[i] == levels[i - 1]);
            }
        }
    }
}

} // verus!

verus! {

/// The most resting orders that one book may hold.
pub const BOOK_CAPACITY: usize = 100000;

pub proof fn lemma_match_queue_shape(orders: Seq<Order>, taker: Order, price: Decimal)
    ensures
        match_queue(orders, taker, price).1 == taker.with_filled(match_queue(orders, taker, price).1.filled_size),
        match_queue(orders, taker, price).0.len() == orders.len(),
        match_queue(orders, taker, price).2.len() <= orders.len(),
    decreases orders.len(),
{
    if orders.len() > 0 {
        lemma_match_queue_shape(orders.subrange(1, orders.len() as int), taker_after(orders[0], taker), price);
    }
}

pub proof fn lemma_resting_len(q: Seq<Order>)
    ensures
        resting(q).len() <= q.len(),
    decreases q.len(),
{
    if q.len() > 0 {
        lemma_resting_len(q.drop_last());
    }
}

pub proof fn lemma_side_count_front(levels: Seq<LimitView>)
    requires
        levels.len() >= 1,
    ensures
        side_count(levels) == levels[0].orders.len() + side_count(levels.subrange(1, levels.len() as int)),
    decreases levels.len(),
{
    let tail = levels.subrange(1, levels.len() as int);
    if levels.len() == 1 {
        assert(levels.drop_last() =~= Seq::<LimitView>::empty());
        assert(tail =~= Seq::<LimitView>::empty());
    } else {
        let init = levels.drop_last();
        lemma_side_count_front(init);
        assert(init.subrange(1, init.len() as int) =~= tail.drop_last());
        assert(tail.last() == levels.last());
    }
}

/// Matching keeps the number of levels and their prices, never adds orders,
/// and makes at most one fill per resting order.
pub proof fn lemma_match_levels_shape(levels: Seq<LimitView>, taker: Order)
    ensures
        match_levels(levels, taker).1 == taker.with_filled(match_levels(levels, taker).1.filled_size),
        match_levels(levels, taker).0.len() == levels.len(),
        forall|i: int| 0 <= i < levels.len() ==> (#[trigger] match_levels(levels, taker).0[i]).price == levels[i].price,
        match_levels(levels, taker).2.len() <= side_count(levels),
        side_count(match_levels(levels, taker).0) <= side_count(levels),
    decreases levels.len(),
{
    let m = match_levels(levels, taker);
    lemma_side_count_nonneg(levels);
    if levels.len() > 0 && price_acceptable(taker, levels[0].price) {
        let tail = levels.subrange(1, levels.len() as int);
        lemma_side_count_nonneg(tail);
        let l = match_level(levels[0], taker);
        let q = match_queue(levels[0].orders, taker, levels[0].price);
        lemma_match_queue_shape(levels[0].orders, taker, levels[0].price);
        lemma_resting_len(q.0);
        lemma_side_count_front(levels);
        lemma_side_count_front(m.0);
        if l.1.is_filled_spec() {
            assert(m.0.subrange(1, m.0.len() as int) =~= tail);
            assert forall|i: int| 0 <= i < levels.len() implies (#[trigger] m.0[i]).price == levels[i].price by {
                if i > 0 {
                    assert(m.0[i] == tail[i - 1]);
                }
            }
        } else {
            let rest = match_levels(tail, l.1);
            lemma_match_levels_shape(tail, l.1);
            assert(m.0.subrange(1, m.0.len() as int) =~= rest.0);
            assert forall|i: int| 0 <= i < levels.len() implies (#[trigger] m.0[i]).price == levels[i].price by {
                if i > 0 {
                    assert(m.0[i] == rest.0[i - 1]);
                    assert(rest.0[i - 1].price == tail[i - 1].price);
                }
            }
        }
    } else if levels.len() > 0 {
        lemma_side_count_front(levels);
    }
}

proof fn lemma_queue_magnitude_by_count(s: Seq<Order>)
    requires
        forall|j: int| 0 <= j < s.len() ==> order_in_range(#[trigger] s[j]),
    ensures
        queue_magnitude(s) <= s.len() * (2 * super::decimal::range_limit()),
    decreases s.len(),
{
    if s.len() > 0 {
        lemma_queue_magnitude_by_count(s.drop_last());
        assert(order_in_range(s[s.len() - 1]));
        let c = 2 * super::decimal::range_limit();
        let n = s.len() as int;
        assert((n - 1) * c + c == n * c) by (nonlinear_arith);
    }
}

proof fn lemma_side_magnitude_by_count(levels: Seq<LimitView>)
    requires
        levels_in_range(levels),
    ensures
        side_magnitude(levels) <= side_count(levels) * (2 * super::decimal::range_limit()),
    decreases levels.len(),
{
    if levels.len() > 0 {
        let init = levels.drop_last();
        assert(levels_in_range(init)) by {
            assert forall|i: int, k: int| 0 <= i < init.len() && 0 <= k < init[i].orders.len() implies order_in_range(
                #[trigger] init[i].orders[k],
            ) by {
                assert(init[i] == levels[i]);
            }
        }
        lemma_side_magnitude_by_count(init);
        let last = levels[levels.len() - 1];
        assert forall|j: int| 0 <= j < last.orders.len() implies order_in_range(#[trigger] last.orders[j]) by {}
        lemma_queue_magnitude_by_count(last.orders);
        let c = 2 * super::decimal::range_limit();
        let a = side_count(init);
        let b = last.orders.len() as int;
        assert(a * c + b * c == (a + b) * c) by (nonlinear_arith);
    }
}

proof fn lemma_level_len_by_count(levels: Seq<LimitView>, i: int)
    requires
        0 <= i < levels.len(),
    ensures
        levels[i].orders.len() <= side_count(levels),
    decreases levels.len(),
{
    if i < levels.len() - 1 {
        lemma_level_len_by_count(levels.drop_last(), i);
    }
    lemma_side_count_nonneg(levels.drop_last());
}

pub proof fn lemma_side_count_nonneg(levels: Seq<LimitView>)
    ensures
        side_count(levels) >= 0,
    decreases levels.len(),
{
    if levels.len() > 0 {
        lemma_side_count_nonneg(levels.drop_last());
    }
}

/// Levels of in-range orders, no more than a book's capacity of them, have
/// running totals that are computed exactly.
pub proof fn lemma_bounded_by_count(levels: Seq<LimitView>)
    requires
        levels_in_range(levels),
        side_count(levels) <= BOOK_CAPACITY,
    ensures
        levels_magnitude_bounded(levels),
        side_magnitude(levels) <= super::decimal::exact_limit() - super::decimal::range_limit(),
{
    let c = 2 * super::decimal::range_limit();
    lemma_side_count_nonneg(levels);
    lemma_side_magnitude_by_count(levels);
    let total = side_count(levels);
    assert(total * c <= 100000 * c) by (nonlinear_arith)
        requires
            total <= 100000,
            c > 0,
    ;
    assert forall|i: int| 0 <= i < levels.len() implies queue_magnitude(#[trigger] levels[i].orders) <= super::decimal::exact_limit() by {
        lemma_level_len_by_count(levels, i);
        assert forall|j: int| 0 <= j < levels[i].orders.len() implies order_in_range(#[trigger] levels[i].orders[j]) by {}
        lemma_queue_magnitude_by_count(levels[i].orders);
        let n = levels[i].orders.len() as int;
        assert(n * c <= 100000 * c) by (nonlinear_arith)
            requires
                n <= 100000,
                c > 0,
        ;
    }
}

} // verus!

verus! {

pub proof fn lemma_side_count_concat(a: Seq<LimitView>, b: Seq<LimitView>)
    ensures
        side_count(a + b) == side_count(a) + side_count(b),
    decreases b.len(),
{
    if b.len() == 0 {
        assert(a + b =~= a);
    } else {
        lemma_side_count_concat(a, b.drop_last());
        assert((a + b).drop_last() =~= a + b.drop_last());
        assert((a + b).last() == b.last());
    }
}

proof fn lemma_side_count_single(l: LimitView)
    ensures
        side_count(seq![l]) == l.orders.len(),
{
    let s = seq![l];
    assert(s.drop_last() =~= Seq::<LimitView>::empty());
    assert(s.last() == l);
    assert(side_count(s.drop_last()) == 0);
}

/// Adding an order adds one to the count, and keeps the levels in range and
/// open when the order is.
pub proof fn lemma_inserted_props(levels: Seq<LimitView>, side: OrderSide, price: Decimal, o: Order, result: Seq<LimitView>)
    requires
        inserted(levels, side, price, o, result),
    ensures
        side_count(result) == side_count(levels) + 1,
        levels_in_range(levels) && order_in_range(o) ==> levels_in_range(result),
        levels_open(levels) && order_open(o) ==> levels_open(result),
{
    if exists|a: int| 0 <= a < levels.len() && (#[trigger] levels[a]).price.value() == price.value() {
        let a = choose|a: int|
            0 <= a < levels.len() && (#[trigger] levels[a]).price.value() == price.value() && result
                == levels.update(a, LimitView { price: levels[a].price, orders: levels[a].orders.push(o) });
        let l = LimitView { price: levels[a].price, orders: levels[a].orders.push(o) };
        let pre = levels.subrange(0, a);
        let post = levels.subrange(a + 1, levels.len() as int);
        assert(levels =~= pre + seq![levels[a]] + post);
        assert(result =~= pre + seq![l] + post);
        lemma_side_count_concat(pre + seq![levels[a]], post);
        lemma_side_count_concat(pre, seq![levels[a]]);
        lemma_side_count_concat(pre + seq![l], post);
        lemma_side_count_concat(pre, seq![l]);
        lemma_side_count_single(levels[a]);
        lemma_side_count_single(l);
        assert forall|i: int, k: int| 0 <= i < result.len() && 0 <= k < result[i].orders.len() implies (#[trigger] result[i].orders[k]) == o || result[i].orders[k] == levels[i].orders[k] by {
            if i == a && k < levels[a].orders.len() {
                assert(result[i].orders[k] == levels[i].orders[k]);
            }
        }
    } else {
        let pos = choose|pos: int|
            0 <= pos <= levels.len() && result == levels.insert(pos, LimitView { price, orders: seq![o] });
        let l = LimitView { price, orders: seq![o] };
        let pre = levels.subrange(0, pos);
        let post = levels.subrange(pos, levels.len() as int);
        assert(levels =~= pre + post);
        assert(result =~= pre + seq![l] + post);
        lemma_side_count_concat(pre, post);
        lemma_side_count_concat(pre + seq![l], post);
        lemma_side_count_concat(pre, seq![l]);
        lemma_side_count_single(l);
        assert forall|i: int, k: int| 0 <= i < result.len() && 0 <= k < result[i].orders.len() implies (#[trigger] result[i].orders[k]) == o || (i < pos && result[i].orders[k] == levels[i].orders[k]) || (i > pos && result[i].orders[k] == levels[i - 1].orders[k]) by {
            if i < pos {
                assert(result[i] == levels[i]);
            } else if i > pos {
                assert(result[i] == levels[i - 1]);
            }
        }
    }
}

} // verus!

verus! {

/// Removing an order removes one from the count and keeps the levels in range
/// and open.
pub proof fn lemma_remove_at_props(levels: Seq<LimitView>, a: int, k: int)
    requires
        0 <= a < levels.len(),
        0 <= k < levels[a].orders.len(),
    ensures
        side_count(remove_at(levels, a, k)) == side_count(levels) - 1,
        levels_in_range(levels) ==> levels_in_range(remove_at(levels, a, k)),
        levels_open(levels) ==> levels_open(remove_at(levels, a, k)),
{
    let r = remove_at(levels, a, k);
    let l = r[a];
    let pre = levels.subrange(0, a);
    let post = levels.subrange(a + 1, levels.len() as int);
    assert(levels =~= pre + seq![levels[a]] + post);
    assert(r =~= pre + seq![l] + post);
    lemma_side_count_concat(pre + seq![levels[a]], post);
    lemma_side_count_concat(pre, seq![levels[a]]);
    lemma_side_count_concat(pre + seq![l], post);
    lemma_side_count_concat(pre, seq![l]);
    lemma_side_count_single(levels[a]);
    lemma_side_count_single(l);
    assert forall|i: int, q: int| 0 <= i < r.len() && 0 <= q < r[i].orders.len() implies (#[trigger] r[i].orders[q]) == levels[i].orders[q] || (i == a && r[i].orders[q] == levels[i].orders[q + 1]) by {
        if i == a && q >= k {
            assert(r[i].orders[q] == levels[i].orders[q + 1]);
        }
    }
}

} // verus!

verus! {

/// The order at `k` of the level at `a` is the only one of the levels with the
/// id: no other position is the first with it.
proof fn lemma_sole_id(levels: Seq<LimitView>, id: Seq<char>, a: int, k: int)
    requires
        0 <= a < levels.len(),
        0 <= k < levels[a].orders.len(),
        levels[a].orders[k].id@ == id,
        forall|j: int| 0 <= j < levels[a].orders.len() && j != k ==> (#[trigger] levels[a].orders[j]).id@ != id,
        forall|b: int| 0 <= b < levels.len() && b != a ==> !queue_has_id(#[trigger] levels[b].orders, id),
    ensures
        first_id_at(levels[a].orders, id, k),
        queue_has_id(levels[a].orders, id),
        forall|a2: int, k2: int|
            0 <= a2 < levels.len() && #[trigger] first_id_at(levels[a2].orders, id, k2) ==> a2 == a && k2 == k,
{
    assert forall|a2: int, k2: int| 0 <= a2 < levels.len() && #[trigger] first_id_at(levels[a2].orders, id, k2) implies a2
        == a && k2 == k by {
        if a2 != a {
            assert(queue_has_id(levels[a2].orders, id));
        }
    }
}

/// Cancelling an order just added undoes the addition: when no order of the
/// book carried its id, the cancellation succeeds, the other side is as it
/// was, and every level of the order's side holds again the orders it held;
/// a level that the addition opened stays, empty.
pub proof fn lemma_cancel_undoes_add(
    book: OrderbookView,
    price: Decimal,
    o: Order,
    added: OrderbookView,
    ok: bool,
    after: OrderbookView,
)
    requires
        !bids_have_id(book, o.id@),
        !asks_have_id(book, o.id@),
        added.side(opposite(o.side)) == book.side(opposite(o.side)),
        inserted(book.side(o.side), o.side, price, o, added.side(o.side)),
        cancel_result(added, o.id@, ok, after),
    ensures
        ok,
        after.side(opposite(o.side)) == book.side(opposite(o.side)),
        (exists|a: int| 0 <= a < book.side(o.side).len() && (#[trigger] book.side(o.side)[a]).price.value() == price.value())
            ==> after.side(o.side) == book.side(o.side),
        !(exists|a: int| 0 <= a < book.side(o.side).len() && (#[trigger] book.side(o.side)[a]).price.value() == price.value())
            ==> exists|pos: int|
            0 <= pos <= book.side(o.side).len() && after.side(o.side) == book.side(o.side).insert(
                pos,
                LimitView { price, orders: Seq::empty() },
            ),
{
    let id = o.id@;
    let levels = book.side(o.side);
    let res = added.side(o.side);
    assert forall|b: int| 0 <= b < levels.len() implies !queue_has_id(#[trigger] levels[b].orders, id) by {
        match o.side {
            OrderSide::Bid => {
                if queue_has_id(levels[b].orders, id) {
                    assert(bids_have_id(book, id));
                }
            },
            OrderSide::Ask => {
                if queue_has_id(levels[b].orders, id) {
                    assert(asks_have_id(book, id));
                }
            },
        }
    }
    let (a, k, left) = if exists|a: int| 0 <= a < levels.len() && (#[trigger] levels[a]).price.value() == price.value() {
        let a = choose|a: int|
            0 <= a < levels.len() && (#[trigger] levels[a]).price.value() == price.value() && res == levels.update(
                a,
                LimitView { price: levels[a].price, orders: levels[a].orders.push(o) },
            );
        let k = levels[a].orders.len() as int;
        assert forall|j: int| 0 <= j < res[a].orders.len() && j != k implies (#[trigger] res[a].orders[j]).id@ != id by {
            assert(res[a].orders[j] == levels[a].orders[j]);
            if levels[a].orders[j].id@ == id {
                assert(queue_has_id(levels[a].orders, id));
            }
        }
        assert forall|b: int| 0 <= b < res.len() && b != a implies !queue_has_id(#[trigger] res[b].orders, id) by {
            assert(res[b] == levels[b]);
        }
        lemma_sole_id(res, id, a, k);
        assert(res[a].orders.remove(k) =~= levels[a].orders);
        assert(remove_at(res, a, k) =~= levels);
        (a, k, levels)
    } else {
        let pos = choose|pos: int|
            0 <= pos <= levels.len() && res == levels.insert(pos, LimitView { price, orders: seq![o] });
        assert forall|b: int| 0 <= b < res.len() && b != pos implies !queue_has_id(#[trigger] res[b].orders, id) by {
            if b < pos {
                assert(res[b] == levels[b]);
            } else {
                assert(res[b] == levels[b - 1]);
            }
        }
        lemma_sole_id(res, id, pos, 0);
        assert(res[pos].orders.remove(0) =~= Seq::<Order>::empty());
        let left = levels.insert(pos, LimitView { price, orders: Seq::empty() });
        assert(remove_at(res, pos, 0) =~= left);
        (pos, 0, left)
    };
    match o.side {
        OrderSide::Bid => {
            assert(bids_have_id(added, id));
            let (a2, k2) = choose|a2: int, k2: int|
                0 <= a2 < added.bids.len() && #[trigger] first_id_at(added.bids[a2].orders, id, k2) && (forall|b: int|
                    a2 < b < added.bids.len() ==> !queue_has_id(#[trigger] added.bids[b].orders, id)) && after.bids
                    == remove_at(added.bids, a2, k2) && after.asks == added.asks;
            assert(a2 == a && k2 == k);
        },
        OrderSide::Ask => {
            assert(asks_have_id(added, id));
            assert(!bids_have_id(added, id));
            let (a2, k2) = choose|a2: int, k2: int|
                0 <= a2 < added.asks.len() && #[trigger] first_id_at(added.asks[a2].orders, id, k2) && (forall|b: int|
                    0 <= b < a2 ==> !queue_has_id(#[trigger] added.asks[b].orders, id)) && after.asks == remove_at(
                    added.asks,
                    a2,
                    k2,
                ) && after.bids == added.bids;
            assert(a2 == a && k2 == k);
        },
    }
    assert(after.side(o.side) == left);
}

} // verus!

verus! {

proof fn lemma_queue_abs(s: Seq<Order>)
    ensures
        0 <= queue_magnitude(s),
        -queue_magnitude(s) <= queue_volume(s) <= queue_magnitude(s),
    decreases s.len(),
{
    if s.len() > 0 {
        lemma_queue_abs(s.drop_last());
    }
}

proof fn lemma_queue_magnitude_prefix(s: Seq<Order>, k: int)
    requires
        0 <= k <= s.len(),
    ensures
        queue_magnitude(s.subrange(0, k)) <= queue_magnitude(s),
    decreases s.len() - k,
{
    if k < s.len() {
        lemma_queue_magnitude_prefix(s, k + 1);
        assert(s.subrange(0, k + 1).drop_last() =~= s.subrange(0, k));
    } else {
        assert(s.subrange(0, k) =~= s);
    }
}

proof fn lemma_side_abs(levels: Seq<LimitView>)
    ensures
        0 <= side_magnitude(levels),
        -side_magnitude(levels) <= side_volume(levels) <= side_magnitude(levels),
    decreases levels.len(),
{
    if levels.len() > 0 {
        lemma_side_abs(levels.drop_last());
        lemma_queue_abs(levels.last().orders);
    }
}

proof fn lemma_side_magnitude_prefix(levels: Seq<LimitView>, a: int)
    requires
        0 <= a <= levels.len(),
    ensures
        side_magnitude(levels.subrange(0, a)) <= side_magnitude(levels),
    decreases levels.len() - a,
{
    if a < levels.len() {
        lemma_side_magnitude_prefix(levels, a + 1);
        assert(levels.subrange(0, a + 1).drop_last() =~= levels.subrange(0, a));
        assert(levels.subrange(0, a + 1).last() == levels[a]);
        lemma_queue_abs(levels[a].orders);
    } else {
        assert(levels.subrange(0, a) =~= levels);
    }
}

/// Every running total of the levels, in priority order, is bounded by the
/// total of the magnitudes.
proof fn lemma_prefix_bound(levels: Seq<LimitView>, a: int, k: int)
    requires
        0 <= a < levels.len(),
        0 <= k <= levels[a].orders.len(),
    ensures
        -side_magnitude(levels) <= prefix_volume(levels, a, k) <= side_magnitude(levels),
{
    lemma_side_abs(levels.subrange(0, a));
    lemma_queue_abs(levels[a].orders.subrange(0, k));
    lemma_queue_magnitude_prefix(levels[a].orders, k);
    assert(levels.subrange(0, a + 1).drop_last() =~= levels.subrange(0, a));
    assert(levels.subrange(0, a + 1).last() == levels[a]);
    lemma_side_magnitude_prefix(levels, a + 1);
}

/// On levels of unfilled orders, whose running totals only grow, the walk
/// reaches `size` exactly when some order exists and the total does.
pub proof fn lemma_covers_open(levels: Seq<LimitView>, size: int)
    requires
        levels_open(levels),
    ensures
        side_covers(levels, size) <==> (side_count(levels) > 0 && size <= side_volume(levels)),
    decreases levels.len(),
{
    if side_covers(levels, size) {
        let (a, k) = choose|a: int, k: int|
            0 <= a < levels.len() && 1 <= k <= levels[a].orders.len() && #[trigger] prefix_volume(levels, a, k) >= size;
        assert forall|j: int| 0 <= j < levels[a].orders.len() implies order_open(#[trigger] levels[a].orders[j]) by {}
        lemma_queue_volume_prefix(levels[a].orders, k);
        assert(levels.subrange(0, a + 1).drop_last() =~= levels.subrange(0, a));
        assert(levels.subrange(0, a + 1).last() == levels[a]);
        assert(levels[a].orders.subrange(0, levels[a].orders.len() as int) =~= levels[a].orders);
        lemma_queue_volume_prefix(levels[a].orders, levels[a].orders.len() as int);
        lemma_side_volume_prefix(levels, a + 1);
        lemma_level_len_by_count(levels, a);
    }
    if side_count(levels) > 0 && size <= side_volume(levels) {
        let n = levels.len() as int;
        assert(n > 0);
        let last = levels[n - 1];
        let init = levels.drop_last();
        if last.orders.len() > 0 {
            let m = last.orders.len() as int;
            assert(levels.subrange(0, n - 1) =~= init);
            assert(last.orders.subrange(0, m) =~= last.orders);
            assert(prefix_volume(levels, n - 1, m) >= size);
        } else {
            assert(last.orders =~= Seq::<Order>::empty());
            assert(queue_volume(last.orders) == 0);
            assert(levels_open(init)) by {
                assert forall|i: int, k: int| 0 <= i < init.len() && 0 <= k < init[i].orders.len() implies order_open(
                    #[trigger] init[i].orders[k],
                ) by {
                    assert(init[i] == levels[i]);
                }
            }
            lemma_covers_open(init, size);
            let (a, k) = choose|a: int, k: int|
                0 <= a < init.len() && 1 <= k <= init[a].orders.len() && #[trigger] prefix_volume(init, a, k) >= size;
            assert(levels.subrange(0, a) =~= init.subrange(0, a));
            assert(levels[a] == init[a]);
            assert(prefix_volume(levels, a, k) >= size);
        }
    }
}

} // verus!

verus! {

/// The accepted levels are exactly a leading run of levels at accepted
/// prices, ended by the side's end or by a level at a price not accepted.
proof fn lemma_accepted_len(levels: Seq<LimitView>, taker: Order, j: int)
    requires
        0 <= j <= levels.len(),
        forall|b: int| 0 <= b < j ==> price_acceptable(taker, #[trigger] levels[b].price),
        j < levels.len() ==> !price_acceptable(taker, levels[j].price),
    ensures
        accepted_len(levels, taker) == j,
    decreases levels.len(),
{
    if levels.len() > 0 && j > 0 {
        let tail = levels.subrange(1, levels.len() as int);
        assert(price_acceptable(taker, levels[0].price));
        assert forall|b: int| 0 <= b < j - 1 implies price_acceptable(taker, #[trigger] tail[b].price) by {
            assert(tail[b] == levels[b + 1]);
        }
        if j - 1 < tail.len() {
            assert(tail[j - 1] == levels[j]);
        }
        lemma_accepted_len(tail, taker, j - 1);
    }
}

/// The accepted levels are all at accepted prices, and no more than the
/// side holds.
pub proof fn lemma_accepted_len_bounds(levels: Seq<LimitView>, taker: Order)
    ensures
        0 <= accepted_len(levels, taker) <= levels.len(),
        forall|b: int| 0 <= b < accepted_len(levels, taker) ==> price_acceptable(taker, #[trigger] levels[b].price),
    decreases levels.len(),
{
    if levels.len() > 0 && price_acceptable(taker, levels[0].price) {
        let tail = levels.subrange(1, levels.len() as int);
        lemma_accepted_len_bounds(tail, taker);
        assert forall|b: int| 0 <= b < accepted_len(levels, taker) implies price_acceptable(taker, #[trigger] levels[b].price) by {
            if b > 0 {
                assert(levels[b] == tail[b - 1]);
            }
        }
    }
}

} // verus!

verus! {

/// Whether every order of the levels lies in the exact range.
fn levels_ranged(levels: &Vec<Limit>) -> (r: bool)
    ensures
        r == levels_in_range(level_views(levels@)),
{
    let ghost views = level_views(levels@);
    let n = levels.len();
    let mut a: usize = 0;
    while a < n
        invariant
            n == views.len(),
            views == level_views(levels@),
            0 <= a <= n,
            forall|a2: int, k: int| 0 <= a2 < a && 0 <= k < views[a2].orders.len() ==> order_in_range(#[trigger] views[a2].orders[k]),
        decreases n - a,
    {
        let m = levels[a].orders.len();
        let mut k: usize = 0;
        proof {
            assert(views[a as int] == levels@[a as int]@);
        }
        while k < m
            invariant
                n == views.len(),
                views == level_views(levels@),
                0 <= a < n,
                m == views[a as int].orders.len(),
                views[a as int] == levels@[a as int]@,
                0 <= k <= m,
                forall|a2: int, k2: int| 0 <= a2 < a && 0 <= k2 < views[a2].orders.len() ==> order_in_range(#[trigger] views[a2].orders[k2]),
                forall|k2: int| 0 <= k2 < k ==> order_in_range(#[trigger] views[a as int].orders[k2]),
            decreases m - k,
        {
            let o = &levels[a].orders[k];
            if !(o.size.is_in_range() && o.filled_size.is_in_range()) {
                proof {
                    assert(views[a as int].orders[k as int] == *o);
                }
                return false;
            }
            proof {
                assert(views[a as int].orders[k as int] == *o);
            }
            k += 1;
        }
        a += 1;
    }
    true
}

/// The number of orders of the levels, or `cap` when there are at least that
/// many.
fn count_capped(levels: &Vec<Limit>, cap: usize) -> (r: usize)
    requires
        cap > 0,
    ensures
        r == (if side_count(level_views(levels@)) < cap {
            side_count(level_views(levels@))
        } else {
            cap as int
        }),
{
    let ghost views = level_views(levels@);
    let n = levels.len();
    let mut count: usize = 0;
    let mut a: usize = 0;
    proof {
        assert(views.subrange(0, 0) =~= Seq::<LimitView>::empty());
    }
    while a < n
        invariant
            n == views.len(),
            views == level_views(levels@),
            0 <= a <= n,
            count == side_count(views.subrange(0, a as int)),
            count < cap,
        decreases n - a,
    {
        let len = levels[a].orders.len();
        proof {
            assert(views[a as int] == levels@[a as int]@);
            assert(views.subrange(0, a + 1).drop_last() =~= views.subrange(0, a as int));
            assert(views.subrange(0, a + 1).last() == views[a as int]);
        }
        if len >= cap - count {
            proof {
                assert(views =~= views.subrange(0, a + 1) + views.subrange(a + 1, n as int));
                lemma_side_count_concat(views.subrange(0, a + 1), views.subrange(a + 1, n as int));
                lemma_side_count_nonneg(views.subrange(a + 1, n as int));
            }
            return cap;
        }
        count = count + len;
        a += 1;
    }
    proof {
        assert(views.subrange(0, n as int) =~= views);
    }
    count
}

impl Orderbook {
    /// Whether every order of the book lies in the exact range and the book
    /// has room for one more order.
    pub fn within_exact_range(&self) -> (r: bool)
        ensures
            r == (levels_in_range(self@.asks) && levels_in_range(self@.bids) && side_count(self@.asks) + side_count(
                self@.bids,
            ) < BOOK_CAPACITY),
    {
        proof {
            lemma_side_count_nonneg(self@.asks);
            lemma_side_count_nonneg(self@.bids);
        }
        if !levels_ranged(&self.asks) || !levels_ranged(&self.bids) {
            return false;
        }
        let ca = count_capped(&self.asks, BOOK_CAPACITY);
        let cb = count_capped(&self.bids, BOOK_CAPACITY);
        ca + cb < BOOK_CAPACITY
    }
}

} // verus!
