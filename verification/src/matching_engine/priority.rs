//! What matching guarantees: price priority, time priority, the taker's limit
//! price, fills that never exceed what was asked or offered, and a volume
//! that passes from the book to the taker without loss.
use super::decimal::Decimal;
use super::orderbook::{
    flatten_levels, lemma_match_queue_shape, levels_exact, levels_open, levels_sorted, match_level, match_levels,
    match_queue, maker_after, meeting_exact, meeting_fills, order_open, price_acceptable, queue_volume, ranks_before,
    resting, side_volume, taker_after, walk_exact, Fill, LimitView, accepted_levels, accepted_len, side_covers,
    lemma_covers_open, lemma_accepted_len_bounds, lemma_resting_len, OrderbookView, opposite, inserted, remove_at,
    prefix_volume,
};
use super::types::{Order, OrderSide};
use vstd::prelude::*;

verus! {

/// `after` is what remains of the queue `before` once it was consumed from
/// its front: a suffix of it, possibly preceded by the order just ahead of
/// that suffix, partly filled.
pub open spec fn consumed_from_front(before: Seq<Order>, after: Seq<Order>) -> bool {
    exists|k: int|
        0 <= k <= before.len() && (after == before.subrange(k, before.len() as int) || (k >= 1 && after.len() >= 1
            && after == seq![before[k - 1].with_filled(after[0].filled_size)] + before.subrange(
            k,
            before.len() as int,
        )))
}

proof fn lemma_acceptable_same(t1: Order, t2: Order, p: Decimal)
    requires
        t1.price == t2.price,
        t1.side == t2.side,
    ensures
        price_acceptable(t1, p) == price_acceptable(t2, p),
{
}

/// Every fill of a queue is at the queue's price, and the taker keeps all but
/// its filled size.
proof fn lemma_queue_fills(orders: Seq<Order>, taker: Order, price: Decimal)
    ensures
        forall|i: int| 0 <= i < match_queue(orders, taker, price).2.len() ==> (#[trigger] match_queue(orders, taker, price).2[i]).2 == price,
        match_queue(orders, taker, price).1 == taker.with_filled(match_queue(orders, taker, price).1.filled_size),
    decreases orders.len(),
{
    if orders.len() > 0 {
        let t2 = taker_after(orders[0], taker);
        lemma_queue_fills(orders.subrange(1, orders.len() as int), t2, price);
        let f = meeting_fills(orders[0], taker, price);
        assert forall|i: int| 0 <= i < f.len() implies (#[trigger] f[i]).2 == price by {}
        if !t2.is_filled_spec() {
            let rest = match_queue(orders.subrange(1, orders.len() as int), t2, price);
            assert forall|i: int| 0 <= i < (f + rest.2).len() implies (#[trigger] (f + rest.2)[i]).2 == price by {
                if i >= f.len() {
                    assert((f + rest.2)[i] == rest.2[i - f.len()]);
                }
            }
        }
    }
}

/// Every fill of a walk of the levels is at the price of one of the walked
/// levels, which the taker accepts.
proof fn lemma_levels_fills(levels: Seq<LimitView>, taker: Order)
    ensures
        forall|i: int| 0 <= i < match_levels(levels, taker).2.len() ==> exists|k: int| 0 <= k < levels.len()
            && (#[trigger] match_levels(levels, taker).2[i]).2 == levels[k].price && price_acceptable(taker, levels[k].price),
        match_levels(levels, taker).1 == taker.with_filled(match_levels(levels, taker).1.filled_size),
    decreases levels.len(),
{
    if levels.len() > 0 && price_acceptable(taker, levels[0].price) {
        let l = match_level(levels[0], taker);
        lemma_queue_fills(levels[0].orders, taker, levels[0].price);
        let m = match_levels(levels, taker);
        if l.1.is_filled_spec() {
            assert forall|i: int| 0 <= i < m.2.len() implies exists|k: int| 0 <= k < levels.len()
                && (#[trigger] m.2[i]).2 == levels[k].price && price_acceptable(taker, levels[k].price) by {
                assert(m.2[i].2 == levels[0].price);
            }
        } else {
            let tail = levels.subrange(1, levels.len() as int);
            lemma_levels_fills(tail, l.1);
            let rest = match_levels(tail, l.1);
            assert forall|i: int| 0 <= i < m.2.len() implies exists|k: int| 0 <= k < levels.len()
                && (#[trigger] m.2[i]).2 == levels[k].price && price_acceptable(taker, levels[k].price) by {
                if i < l.2.len() {
                    assert(m.2[i] == l.2[i]);
                    assert(m.2[i].2 == levels[0].price);
                } else {
                    assert(m.2[i] == rest.2[i - l.2.len()]);
                    let k = choose|k: int| 0 <= k < tail.len() && rest.2[i - l.2.len()].2 == tail[k].price
                        && price_acceptable(l.1, tail[k].price);
                    lemma_acceptable_same(l.1, taker, tail[k].price);
                    assert(tail[k] == levels[k + 1]);
                }
            }
        }
    }
}

/// A taker with a limit price never trades beyond it: a bid never buys above
/// its price, an ask never sells below its price.
pub proof fn lemma_fills_respect_limit(levels: Seq<LimitView>, taker: Order)
    ensures
        forall|i: int|
            0 <= i < match_levels(levels, taker).2.len() ==> price_acceptable(
                taker,
                #[trigger] match_levels(levels, taker).2[i].2,
            ),
{
    lemma_levels_fills(levels, taker);
    let m = match_levels(levels, taker);
    assert forall|i: int| 0 <= i < m.2.len() implies price_acceptable(taker, #[trigger] m.2[i].2) by {
        let k = choose|k: int| 0 <= k < levels.len() && m.2[i].2 == levels[k].price && price_acceptable(taker, levels[k].price);
    }
}

/// Price priority: on a side sorted best price first, the fills come at the
/// best price first; no fill is at a better price than an earlier one.
pub proof fn lemma_fills_in_price_priority(levels: Seq<LimitView>, side: OrderSide, taker: Order)
    requires
        levels_sorted(levels, side),
    ensures
        forall|i: int, j: int|
            0 <= i < j < match_levels(levels, taker).2.len() ==> !ranks_before(
                side,
                (#[trigger] match_levels(levels, taker).2[j]).2,
                (#[trigger] match_levels(levels, taker).2[i]).2,
            ),
    decreases levels.len(),
{
    let m = match_levels(levels, taker);
    if levels.len() > 0 && price_acceptable(taker, levels[0].price) {
        let l = match_level(levels[0], taker);
        lemma_queue_fills(levels[0].orders, taker, levels[0].price);
        if !l.1.is_filled_spec() {
            let tail = levels.subrange(1, levels.len() as int);
            assert(levels_sorted(tail, side)) by {
                assert forall|a: int, b: int| 0 <= a < b < tail.len() implies ranks_before(side, #[trigger] tail[a].price, #[trigger] tail[b].price) by {
                    assert(tail[a] == levels[a + 1] && tail[b] == levels[b + 1]);
                }
            }
            lemma_fills_in_price_priority(tail, side, l.1);
            lemma_levels_fills(tail, l.1);
            let rest = match_levels(tail, l.1);
            assert forall|i: int, j: int| 0 <= i < j < m.2.len() implies !ranks_before(side, (#[trigger] m.2[j]).2, (#[trigger] m.2[i]).2) by {
                if j < l.2.len() {
                    assert(m.2[i] == l.2[i] && m.2[j] == l.2[j]);
                } else if i < l.2.len() {
                    assert(m.2[i] == l.2[i]);
                    assert(m.2[j] == rest.2[j - l.2.len()]);
                    let k = choose|k: int| 0 <= k < tail.len() && rest.2[j - l.2.len()].2 == tail[k].price
                        && price_acceptable(l.1, tail[k].price);
                    assert(tail[k] == levels[k + 1]);
                    assert(ranks_before(side, levels[0].price, levels[k + 1].price));
                } else {
                    assert(m.2[i] == rest.2[i - l.2.len()] && m.2[j] == rest.2[j - l.2.len()]);
                }
            }
        } else {
            assert forall|i: int, j: int| 0 <= i < j < m.2.len() implies !ranks_before(side, (#[trigger] m.2[j]).2, (#[trigger] m.2[i]).2) by {
                assert(m.2[i].2 == levels[0].price && m.2[j].2 == levels[0].price);
            }
        }
    }
}

} // verus!

verus! {

proof fn lemma_resting_concat(a: Seq<Order>, b: Seq<Order>)
    ensures
        resting(a + b) == resting(a) + resting(b),
    decreases b.len(),
{
    if b.len() == 0 {
        assert(a + b =~= a);
        assert(resting(a) + resting(b) =~= resting(a));
    } else {
        lemma_resting_concat(a, b.drop_last());
        assert((a + b).drop_last() =~= a + b.drop_last());
        assert((a + b).last() == b.last());
        if !b.last().is_filled_spec() {
            assert(resting(a) + resting(b.drop_last()).push(b.last()) =~= (resting(a) + resting(b.drop_last())).push(b.last()));
        }
    }
}

proof fn lemma_resting_open(s: Seq<Order>)
    requires
        forall|i: int| 0 <= i < s.len() ==> order_open(#[trigger] s[i]),
    ensures
        resting(s) == s,
    decreases s.len(),
{
    if s.len() > 0 {
        lemma_resting_open(s.drop_last());
        assert(order_open(s[s.len() - 1]));
        assert(s.drop_last().push(s.last()) =~= s);
    }
}

proof fn lemma_resting_single(o: Order)
    ensures
        resting(seq![o]) == (if o.is_filled_spec() {
            Seq::<Order>::empty()
        } else {
            seq![o]
        }),
{
    let s = seq![o];
    assert(s.drop_last() =~= Seq::<Order>::empty());
    assert(resting(s.drop_last()) =~= Seq::<Order>::empty());
    assert(s.last() == o);
    assert(Seq::<Order>::empty().push(o) =~= s);
}

/// One exact meeting with an open maker: the taker's filled size never falls
/// and never passes its size if it had not; when the taker is still not
/// filled afterwards, the maker is.
proof fn lemma_meeting(maker: Order, taker: Order)
    requires
        meeting_exact(maker, taker),
        order_open(maker),
    ensures
        taker_after(maker, taker).filled_size.value() >= taker.filled_size.value(),
        taker.filled_size.value() <= taker.size.value() ==> taker_after(maker, taker).filled_size.value()
            <= taker.size.value(),
        maker_after(maker, taker).filled_size.value() <= maker.size.value(),
        maker_after(maker, taker).filled_size.value() >= maker.filled_size.value(),
        !taker_after(maker, taker).is_filled_spec() ==> maker_after(maker, taker).is_filled_spec(),
        taker_after(maker, taker).size == taker.size,
        maker_after(maker, taker).size == maker.size,
{
}

/// Time priority within a queue: the walk consumes the queue from its front,
/// filling each order completely before it meets the next, so that what rests
/// afterwards is an untouched suffix, possibly behind one partly filled order;
/// a taker left unfilled consumed the whole queue.
proof fn lemma_queue_consumed_from_front(orders: Seq<Order>, taker: Order, price: Decimal)
    requires
        walk_exact(orders, taker),
        forall|i: int| 0 <= i < orders.len() ==> order_open(#[trigger] orders[i]),
    ensures
        consumed_from_front(orders, resting(match_queue(orders, taker, price).0)),
        !match_queue(orders, taker, price).1.is_filled_spec() ==> resting(match_queue(orders, taker, price).0)
            == Seq::<Order>::empty(),
        match_queue(orders, taker, price).1.filled_size.value() >= taker.filled_size.value(),
        taker.filled_size.value() <= taker.size.value() ==> match_queue(orders, taker, price).1.filled_size.value()
            <= taker.size.value(),
        match_queue(orders, taker, price).1.size == taker.size,
    decreases orders.len(),
{
    let q = match_queue(orders, taker, price);
    if orders.len() == 0 {
        assert(resting(q.0) =~= orders.subrange(0, 0));
        assert(orders.subrange(0, 0) =~= Seq::<Order>::empty());
    } else {
        let o = orders[0];
        let m2 = maker_after(o, taker);
        let t2 = taker_after(o, taker);
        let tail = orders.subrange(1, orders.len() as int);
        lemma_meeting(o, taker);
        assert(m2 == o.with_filled(m2.filled_size));
        assert forall|i: int| 0 <= i < tail.len() implies order_open(#[trigger] tail[i]) by {
            assert(tail[i] == orders[i + 1]);
        }
        lemma_resting_open(tail);
        lemma_resting_single(m2);
        if t2.is_filled_spec() {
            assert(q.0 == seq![m2] + tail);
            lemma_resting_concat(seq![m2], tail);
            if m2.is_filled_spec() {
                assert(resting(q.0) =~= orders.subrange(1, orders.len() as int));
            } else {
                assert(resting(q.0) =~= seq![orders[0].with_filled(resting(q.0)[0].filled_size)] + orders.subrange(1, orders.len() as int));
            }
        } else {
            let rest = match_queue(tail, t2, price);
            lemma_queue_consumed_from_front(tail, t2, price);
            assert(q.0 == seq![m2] + rest.0);
            lemma_resting_concat(seq![m2], rest.0);
            assert(resting(q.0) =~= resting(rest.0));
            let k = choose|k: int|
                0 <= k <= tail.len() && (resting(rest.0) == tail.subrange(k, tail.len() as int) || (k >= 1
                    && resting(rest.0).len() >= 1 && resting(rest.0) == seq![tail[k - 1].with_filled(resting(rest.0)[0].filled_size)]
                    + tail.subrange(k, tail.len() as int)));
            assert(tail.subrange(k, tail.len() as int) =~= orders.subrange(k + 1, orders.len() as int));
            if k >= 1 {
                assert(tail[k - 1] == orders[k]);
            }
        }
    }
}

} // verus!

verus! {

proof fn lemma_flatten_cons(l: LimitView, rest: Seq<LimitView>)
    ensures
        flatten_levels(seq![l] + rest) == l.orders + flatten_levels(rest),
{
    let s = seq![l] + rest;
    assert(s[0] == l);
    assert(s.subrange(1, s.len() as int) =~= rest);
}

/// Price-time priority: matching consumes the other side of the book in its
/// priority order (best price first, oldest order first within a price).  The
/// resting orders afterwards, in priority order, are an untouched suffix of
/// those before, possibly behind the one order that was partly filled.  The
/// taker's filled size never falls, and never passes its size if it had not.
pub proof fn lemma_price_time_priority(levels: Seq<LimitView>, taker: Order)
    requires
        levels_exact(levels, taker),
        levels_open(levels),
    ensures
        consumed_from_front(flatten_levels(levels), flatten_levels(match_levels(levels, taker).0)),
        match_levels(levels, taker).1.filled_size.value() >= taker.filled_size.value(),
        taker.filled_size.value() <= taker.size.value() ==> match_levels(levels, taker).1.filled_size.value()
            <= taker.size.value(),
        match_levels(levels, taker).1.size == taker.size,
    decreases levels.len(),
{
    let m = match_levels(levels, taker);
    let f = flatten_levels(levels);
    if levels.len() == 0 || !price_acceptable(taker, levels[0].price) {
        assert(f.subrange(0, f.len() as int) =~= f);
    } else {
        let l = match_level(levels[0], taker);
        let q = match_queue(levels[0].orders, taker, levels[0].price);
        let tail = levels.subrange(1, levels.len() as int);
        let orders = levels[0].orders;
        assert forall|i: int| 0 <= i < orders.len() implies order_open(#[trigger] orders[i]) by {
            assert(levels[0].orders[i] == orders[i]);
        }
        lemma_queue_consumed_from_front(orders, taker, levels[0].price);
        assert(f == orders + flatten_levels(tail));
        assert(levels_open(tail)) by {
            assert forall|i: int, k: int| 0 <= i < tail.len() && 0 <= k < tail[i].orders.len() implies order_open(#[trigger] tail[i].orders[k]) by {
                assert(tail[i] == levels[i + 1]);
            }
        }
        if l.1.is_filled_spec() {
            lemma_flatten_cons(l.0, tail);
            assert(flatten_levels(m.0) == resting(q.0) + flatten_levels(tail));
            let k = choose|k: int|
                0 <= k <= orders.len() && (resting(q.0) == orders.subrange(k, orders.len() as int) || (k >= 1
                    && resting(q.0).len() >= 1 && resting(q.0) == seq![orders[k - 1].with_filled(resting(q.0)[0].filled_size)]
                    + orders.subrange(k, orders.len() as int)));
            assert(orders.subrange(k, orders.len() as int) + flatten_levels(tail) =~= f.subrange(k, f.len() as int));
            if k >= 1 {
                assert(f[k - 1] == orders[k - 1]);
            }
            if resting(q.0) != orders.subrange(k, orders.len() as int) {
                let x = seq![orders[k - 1].with_filled(resting(q.0)[0].filled_size)];
                assert(flatten_levels(m.0) =~= x + f.subrange(k, f.len() as int));
                assert(flatten_levels(m.0)[0] == resting(q.0)[0]);
            } else {
                assert(flatten_levels(m.0) =~= f.subrange(k, f.len() as int));
            }
        } else {
            let rest = match_levels(tail, l.1);
            lemma_price_time_priority(tail, l.1);
            lemma_flatten_cons(l.0, rest.0);
            assert(flatten_levels(m.0) =~= flatten_levels(rest.0));
            let ft = flatten_levels(tail);
            let k = choose|k: int|
                0 <= k <= ft.len() && (flatten_levels(rest.0) == ft.subrange(k, ft.len() as int) || (k >= 1
                    && flatten_levels(rest.0).len() >= 1 && flatten_levels(rest.0) == seq![ft[k - 1].with_filled(flatten_levels(rest.0)[0].filled_size)]
                    + ft.subrange(k, ft.len() as int)));
            assert(ft.subrange(k, ft.len() as int) =~= f.subrange(orders.len() + k, f.len() as int));
            if k >= 1 {
                assert(ft[k - 1] == f[orders.len() + k - 1]);
            }
        }
    }
}

} // verus!

verus! {

proof fn lemma_queue_volume_concat(a: Seq<Order>, b: Seq<Order>)
    ensures
        queue_volume(a + b) == queue_volume(a) + queue_volume(b),
    decreases b.len(),
{
    if b.len() == 0 {
        assert(a + b =~= a);
    } else {
        lemma_queue_volume_concat(a, b.drop_last());
        assert((a + b).drop_last() =~= a + b.drop_last());
        assert((a + b).last() == b.last());
    }
}

proof fn lemma_queue_volume_single(o: Order)
    ensures
        queue_volume(seq![o]) == o.size.value() - o.filled_size.value(),
{
    let s = seq![o];
    assert(s.drop_last() =~= Seq::<Order>::empty());
    assert(s.last() == o);
    assert(queue_volume(s.drop_last()) == 0);
}

/// When no order is filled beyond its size, the orders that leave a queue for
/// being filled held nothing: the volume of what rests is the queue's.
proof fn lemma_resting_volume(q: Seq<Order>)
    requires
        forall|i: int| 0 <= i < q.len() ==> (#[trigger] q[i]).filled_size.value() <= q[i].size.value(),
    ensures
        queue_volume(resting(q)) == queue_volume(q),
    decreases q.len(),
{
    if q.len() > 0 {
        let init = q.drop_last();
        assert forall|i: int| 0 <= i < init.len() implies (#[trigger] init[i]).filled_size.value() <= init[i].size.value() by {
            assert(init[i] == q[i]);
        }
        lemma_resting_volume(init);
        assert(q.last() == q[q.len() - 1]);
        if !q.last().is_filled_spec() {
            let r = resting(init);
            assert(r.push(q.last()).drop_last() =~= r);
        }
    }
}

/// A walk of a queue moves volume from the queue to the taker, and fills no
/// maker beyond its size.
proof fn lemma_queue_volume_conserved(orders: Seq<Order>, taker: Order, price: Decimal)
    requires
        walk_exact(orders, taker),
        forall|i: int| 0 <= i < orders.len() ==> order_open(#[trigger] orders[i]),
    ensures
        queue_volume(match_queue(orders, taker, price).0) == queue_volume(orders) - (match_queue(
            orders,
            taker,
            price,
        ).1.filled_size.value() - taker.filled_size.value()),
        forall|i: int|
            0 <= i < match_queue(orders, taker, price).0.len() ==> (#[trigger] match_queue(orders, taker, price).0[i]).filled_size.value()
                <= match_queue(orders, taker, price).0[i].size.value(),
    decreases orders.len(),
{
    let q = match_queue(orders, taker, price);
    if orders.len() > 0 {
        let o = orders[0];
        let m2 = maker_after(o, taker);
        let t2 = taker_after(o, taker);
        let tail = orders.subrange(1, orders.len() as int);
        lemma_meeting(o, taker);
        assert(orders =~= seq![o] + tail);
        lemma_queue_volume_concat(seq![o], tail);
        lemma_queue_volume_single(o);
        lemma_queue_volume_single(m2);
        assert(m2.filled_size.value() - o.filled_size.value() == t2.filled_size.value() - taker.filled_size.value());
        assert forall|i: int| 0 <= i < tail.len() implies order_open(#[trigger] tail[i]) by {
            assert(tail[i] == orders[i + 1]);
        }
        if t2.is_filled_spec() {
            lemma_queue_volume_concat(seq![m2], tail);
            assert forall|i: int| 0 <= i < q.0.len() implies (#[trigger] q.0[i]).filled_size.value() <= q.0[i].size.value() by {
                if i > 0 {
                    assert(q.0[i] == tail[i - 1]);
                    assert(order_open(tail[i - 1]));
                }
            }
        } else {
            let rest = match_queue(tail, t2, price);
            lemma_queue_volume_conserved(tail, t2, price);
            lemma_queue_volume_concat(seq![m2], rest.0);
            assert forall|i: int| 0 <= i < q.0.len() implies (#[trigger] q.0[i]).filled_size.value() <= q.0[i].size.value() by {
                if i > 0 {
                    assert(q.0[i] == rest.0[i - 1]);
                }
            }
        }
    }
}

proof fn lemma_side_volume_concat(a: Seq<LimitView>, b: Seq<LimitView>)
    ensures
        side_volume(a + b) == side_volume(a) + side_volume(b),
    decreases b.len(),
{
    if b.len() == 0 {
        assert(a + b =~= a);
    } else {
        lemma_side_volume_concat(a, b.drop_last());
        assert((a + b).drop_last() =~= a + b.drop_last());
        assert((a + b).last() == b.last());
    }
}

proof fn lemma_side_volume_single(l: LimitView)
    ensures
        side_volume(seq![l]) == queue_volume(l.orders),
{
    let s = seq![l];
    assert(s.drop_last() =~= Seq::<LimitView>::empty());
    assert(s.last() == l);
    assert(side_volume(s.drop_last()) == 0);
}

proof fn lemma_tail_open(levels: Seq<LimitView>)
    requires
        levels.len() > 0,
        levels_open(levels),
    ensures
        levels_open(levels.subrange(1, levels.len() as int)),
        forall|i: int| 0 <= i < levels[0].orders.len() ==> order_open(#[trigger] levels[0].orders[i]),
{
    let tail = levels.subrange(1, levels.len() as int);
    assert forall|i: int, k: int| 0 <= i < tail.len() && 0 <= k < tail[i].orders.len() implies order_open(#[trigger] tail[i].orders[k]) by {
        assert(tail[i] == levels[i + 1]);
    }
}

/// Conservation: what the taker receives is exactly what leaves the book.
/// The remaining volume of the side falls by the amount by which the taker's
/// filled size grows.
pub proof fn lemma_volume_conserved(levels: Seq<LimitView>, taker: Order)
    requires
        levels_exact(levels, taker),
        levels_open(levels),
    ensures
        side_volume(levels) - side_volume(match_levels(levels, taker).0) == match_levels(levels, taker).1.filled_size.value()
            - taker.filled_size.value(),
    decreases levels.len(),
{
    if levels.len() > 0 && price_acceptable(taker, levels[0].price) {
        let l = match_level(levels[0], taker);
        let q = match_queue(levels[0].orders, taker, levels[0].price);
        let tail = levels.subrange(1, levels.len() as int);
        lemma_tail_open(levels);
        lemma_queue_volume_conserved(levels[0].orders, taker, levels[0].price);
        lemma_resting_volume(q.0);
        assert(levels =~= seq![levels[0]] + tail);
        lemma_side_volume_concat(seq![levels[0]], tail);
        lemma_side_volume_single(levels[0]);
        lemma_side_volume_single(l.0);
        if l.1.is_filled_spec() {
            lemma_side_volume_concat(seq![l.0], tail);
        } else {
            let rest = match_levels(tail, l.1);
            lemma_volume_conserved(tail, l.1);
            lemma_side_volume_concat(seq![l.0], rest.0);
        }
    }
}

/// A taker that accepts every price of the side and is still not filled
/// afterwards has taken all of the side's volume.
proof fn lemma_unfilled_takes_all(levels: Seq<LimitView>, taker: Order)
    requires
        levels_exact(levels, taker),
        levels_open(levels),
        forall|i: int| 0 <= i < levels.len() ==> price_acceptable(taker, #[trigger] levels[i].price),
    ensures
        !match_levels(levels, taker).1.is_filled_spec() ==> side_volume(match_levels(levels, taker).0) == 0,
    decreases levels.len(),
{
    if levels.len() > 0 {
        assert(price_acceptable(taker, levels[0].price));
        let l = match_level(levels[0], taker);
        let q = match_queue(levels[0].orders, taker, levels[0].price);
        let tail = levels.subrange(1, levels.len() as int);
        lemma_tail_open(levels);
        if !l.1.is_filled_spec() {
            lemma_queue_consumed_from_front(levels[0].orders, taker, levels[0].price);
            lemma_match_queue_shape(levels[0].orders, taker, levels[0].price);
            assert forall|i: int| 0 <= i < tail.len() implies price_acceptable(l.1, #[trigger] tail[i].price) by {
                assert(tail[i] == levels[i + 1]);
                lemma_acceptable_same(l.1, taker, tail[i].price);
            }
            let rest = match_levels(tail, l.1);
            lemma_unfilled_takes_all(tail, l.1);
            lemma_side_volume_concat(seq![l.0], rest.0);
            lemma_side_volume_single(l.0);
            assert(l.0.orders =~= Seq::<Order>::empty());
            assert(queue_volume(l.0.orders) == 0);
        }
    }
}

/// Fill or kill: a taker that accepts every price of the other side, and
/// whose unfilled size that side covers in total, is filled completely.
pub proof fn lemma_covered_taker_filled(levels: Seq<LimitView>, taker: Order)
    requires
        levels_exact(levels, taker),
        levels_open(levels),
        forall|i: int| 0 <= i < levels.len() ==> price_acceptable(taker, #[trigger] levels[i].price),
        taker.size.value() - taker.filled_size.value() <= side_volume(levels),
    ensures
        match_levels(levels, taker).1.is_filled_spec(),
{
    lemma_volume_conserved(levels, taker);
    lemma_unfilled_takes_all(levels, taker);
    lemma_price_time_priority(levels, taker);
}

/// Every fill of a walk of a queue leaves both its maker and its taker filled
/// no further than their sizes.
proof fn lemma_queue_fills_within(orders: Seq<Order>, taker: Order, price: Decimal)
    requires
        walk_exact(orders, taker),
        forall|i: int| 0 <= i < orders.len() ==> order_open(#[trigger] orders[i]),
        taker.filled_size.value() <= taker.size.value(),
    ensures
        forall|i: int|
            0 <= i < match_queue(orders, taker, price).2.len() ==> within_size(
                #[trigger] match_queue(orders, taker, price).2[i],
            ),
    decreases orders.len(),
{
    let q = match_queue(orders, taker, price);
    if orders.len() > 0 {
        let o = orders[0];
        let t2 = taker_after(o, taker);
        let tail = orders.subrange(1, orders.len() as int);
        lemma_meeting(o, taker);
        let f = meeting_fills(o, taker, price);
        assert forall|i: int| 0 <= i < f.len() implies within_size(#[trigger] f[i]) by {}
        if !t2.is_filled_spec() {
            assert forall|i: int| 0 <= i < tail.len() implies order_open(#[trigger] tail[i]) by {
                assert(tail[i] == orders[i + 1]);
            }
            let rest = match_queue(tail, t2, price);
            lemma_queue_fills_within(tail, t2, price);
            assert forall|i: int| 0 <= i < q.2.len() implies within_size(#[trigger] q.2[i]) by {
                if i >= f.len() {
                    assert(q.2[i] == rest.2[i - f.len()]);
                } else {
                    assert(q.2[i] == f[i]);
                }
            }
        }
    }
}

/// A fill leaves its maker and its taker filled no further than their sizes.
pub open spec fn within_size(f: Fill) -> bool {
    &&& f.0.filled_size.value() <= f.0.size.value()
    &&& f.1.filled_size.value() <= f.1.size.value()
}

/// No fill overfills: after every fill, neither the maker nor the taker is
/// filled beyond its size (for a taker that was not already).
pub proof fn lemma_fills_within_size(levels: Seq<LimitView>, taker: Order)
    requires
        levels_exact(levels, taker),
        levels_open(levels),
        taker.filled_size.value() <= taker.size.value(),
    ensures
        forall|i: int|
            0 <= i < match_levels(levels, taker).2.len() ==> within_size(#[trigger] match_levels(levels, taker).2[i]),
    decreases levels.len(),
{
    let m = match_levels(levels, taker);
    if levels.len() > 0 && price_acceptable(taker, levels[0].price) {
        let l = match_level(levels[0], taker);
        let tail = levels.subrange(1, levels.len() as int);
        lemma_tail_open(levels);
        lemma_queue_fills_within(levels[0].orders, taker, levels[0].price);
        lemma_queue_consumed_from_front(levels[0].orders, taker, levels[0].price);
        if !l.1.is_filled_spec() {
            let rest = match_levels(tail, l.1);
            lemma_fills_within_size(tail, l.1);
            assert forall|i: int| 0 <= i < m.2.len() implies within_size(#[trigger] m.2[i]) by {
                if i >= l.2.len() {
                    assert(m.2[i] == rest.2[i - l.2.len()]);
                } else {
                    assert(m.2[i] == l.2[i]);
                }
            }
        }
    }
}

} // verus!

verus! {

/// Exact meetings over the levels are exact over any leading run of them.
proof fn lemma_levels_exact_prefix(levels: Seq<LimitView>, taker: Order, j: int)
    requires
        0 <= j <= levels.len(),
        levels_exact(levels, taker),
    ensures
        levels_exact(levels.subrange(0, j), taker),
    decreases j,
{
    let p = levels.subrange(0, j);
    if j > 0 {
        assert(p[0] == levels[0]);
        if price_acceptable(taker, levels[0].price) {
            let l = match_level(levels[0], taker);
            if !l.1.is_filled_spec() {
                let tail = levels.subrange(1, levels.len() as int);
                lemma_levels_exact_prefix(tail, l.1, j - 1);
                assert(p.subrange(1, p.len() as int) =~= tail.subrange(0, j - 1));
            }
        }
    }
}

/// A taker, not filled to begin with, that a leading run of the levels fills
/// ends the walk of all the levels as it ends the walk of that run.
proof fn lemma_match_prefix(levels: Seq<LimitView>, taker: Order, j: int)
    requires
        0 <= j <= levels.len(),
        !taker.is_filled_spec(),
        match_levels(levels.subrange(0, j), taker).1.is_filled_spec(),
    ensures
        match_levels(levels, taker).1 == match_levels(levels.subrange(0, j), taker).1,
    decreases j,
{
    let p = levels.subrange(0, j);
    if j > 0 {
        assert(p[0] == levels[0]);
        if price_acceptable(taker, levels[0].price) {
            let l = match_level(levels[0], taker);
            if !l.1.is_filled_spec() {
                let tail = levels.subrange(1, levels.len() as int);
                assert(p.subrange(1, p.len() as int) =~= tail.subrange(0, j - 1));
                lemma_match_prefix(tail, l.1, j - 1);
            }
        }
    }
}

/// Fill or kill: a taker that has filled nothing below zero, and whose size
/// the levels at prices it accepts hold (the walk of their remaining sizes
/// reaches it), is filled completely by matching.
pub proof fn lemma_fill_or_kill(levels: Seq<LimitView>, taker: Order)
    requires
        levels_exact(levels, taker),
        levels_open(levels),
        taker.filled_size.value() >= 0,
        side_covers(accepted_levels(levels, taker), taker.size.value()),
    ensures
        match_levels(levels, taker).1.is_filled_spec(),
{
    let j = accepted_len(levels, taker);
    lemma_accepted_len_bounds(levels, taker);
    let p = levels.subrange(0, j);
    lemma_price_time_priority(levels, taker);
    if !taker.is_filled_spec() {
        assert(levels_open(p)) by {
            assert forall|i: int, k: int| 0 <= i < p.len() && 0 <= k < p[i].orders.len() implies order_open(
                #[trigger] p[i].orders[k],
            ) by {
                assert(p[i] == levels[i]);
            }
        }
        lemma_covers_open(p, taker.size.value());
        lemma_levels_exact_prefix(levels, taker, j);
        assert forall|i: int| 0 <= i < p.len() implies price_acceptable(taker, #[trigger] p[i].price) by {
            assert(p[i] == levels[i]);
        }
        lemma_covered_taker_filled(p, taker);
        lemma_match_prefix(levels, taker, j);
    }
}

} // verus!

verus! {

/// No bid with orders is priced at or above an ask with orders.
pub open spec fn uncrossed(b: OrderbookView) -> bool {
    forall|i: int, j: int|
        #![trigger b.bids[i], b.asks[j]]
        0 <= i < b.bids.len() && 0 <= j < b.asks.len() && b.bids[i].orders.len() > 0 && b.asks[j].orders.len() > 0
            ==> b.bids[i].price.value() < b.asks[j].price.value()
}

/// Matching keeps each level's price and never lengthens its queue.
proof fn lemma_levels_shrink(levels: Seq<LimitView>, taker: Order)
    ensures
        match_levels(levels, taker).0.len() == levels.len(),
        forall|i: int|
            0 <= i < levels.len() ==> (#[trigger] match_levels(levels, taker).0[i]).price == levels[i].price
                && match_levels(levels, taker).0[i].orders.len() <= levels[i].orders.len(),
    decreases levels.len(),
{
    let m = match_levels(levels, taker);
    if levels.len() > 0 && price_acceptable(taker, levels[0].price) {
        let l = match_level(levels[0], taker);
        let q = match_queue(levels[0].orders, taker, levels[0].price);
        let tail = levels.subrange(1, levels.len() as int);
        lemma_match_queue_shape(levels[0].orders, taker, levels[0].price);
        lemma_resting_len(q.0);
        if l.1.is_filled_spec() {
            assert forall|i: int| 0 <= i < levels.len() implies (#[trigger] m.0[i]).price == levels[i].price
                && m.0[i].orders.len() <= levels[i].orders.len() by {
                if i > 0 {
                    assert(m.0[i] == tail[i - 1]);
                }
            }
        } else {
            let rest = match_levels(tail, l.1);
            lemma_levels_shrink(tail, l.1);
            assert forall|i: int| 0 <= i < levels.len() implies (#[trigger] m.0[i]).price == levels[i].price
                && m.0[i].orders.len() <= levels[i].orders.len() by {
                if i > 0 {
                    assert(m.0[i] == rest.0[i - 1]);
                    assert(tail[i - 1] == levels[i]);
                }
            }
        }
    }
}

/// A taker left unfilled by an exact walk of a side in priority order has
/// emptied every level at a price it accepts.
pub proof fn lemma_unfilled_consumed(levels: Seq<LimitView>, side: OrderSide, taker: Order)
    requires
        levels_exact(levels, taker),
        levels_open(levels),
        levels_sorted(levels, side),
        side == opposite(taker.side),
        !match_levels(levels, taker).1.is_filled_spec(),
    ensures
        forall|i: int|
            0 <= i < levels.len() && price_acceptable(taker, #[trigger] levels[i].price) ==> match_levels(
                levels,
                taker,
            ).0[i].orders.len() == 0,
    decreases levels.len(),
{
    let m = match_levels(levels, taker);
    if levels.len() > 0 {
        if !price_acceptable(taker, levels[0].price) {
            assert forall|i: int| 0 <= i < levels.len() && price_acceptable(taker, #[trigger] levels[i].price) implies m.0[i].orders.len()
                == 0 by {
                if i > 0 {
                    assert(ranks_before(side, levels[0].price, levels[i].price));
                }
            }
        } else {
            let l = match_level(levels[0], taker);
            let tail = levels.subrange(1, levels.len() as int);
            lemma_tail_open(levels);
            lemma_queue_consumed_from_front(levels[0].orders, taker, levels[0].price);
            lemma_match_queue_shape(levels[0].orders, taker, levels[0].price);
            assert(!l.1.is_filled_spec());
            let rest = match_levels(tail, l.1);
            lemma_levels_shrink(tail, l.1);
            assert(levels_sorted(tail, side)) by {
                assert forall|a: int, b: int| 0 <= a < b < tail.len() implies ranks_before(side, #[trigger] tail[a].price, #[trigger] tail[b].price) by {
                    assert(tail[a] == levels[a + 1] && tail[b] == levels[b + 1]);
                }
            }
            lemma_unfilled_consumed(tail, side, l.1);
            assert(l.0.orders =~= Seq::<Order>::empty());
            assert forall|i: int| 0 <= i < levels.len() && price_acceptable(taker, #[trigger] levels[i].price) implies m.0[i].orders.len()
                == 0 by {
                if i > 0 {
                    assert(m.0[i] == rest.0[i - 1]);
                    assert(tail[i - 1] == levels[i]);
                    lemma_acceptable_same(l.1, taker, tail[i - 1].price);
                }
            }
        }
    }
}

} // verus!

verus! {

/// Matching takes orders out of the other side only, so an uncrossed book
/// stays uncrossed.
pub proof fn lemma_match_keeps_uncrossed(book: OrderbookView, taker: Order)
    requires
        uncrossed(book),
    ensures
        uncrossed(book.with_side(opposite(taker.side), match_levels(book.side(opposite(taker.side)), taker).0)),
{
    let side = opposite(taker.side);
    let m = match_levels(book.side(side), taker);
    lemma_levels_shrink(book.side(side), taker);
    let b = book.with_side(side, m.0);
    assert forall|i: int, j: int|
        0 <= i < b.bids.len() && 0 <= j < b.asks.len() && b.bids[i].orders.len() > 0 && b.asks[j].orders.len()
            > 0 implies #[trigger] b.bids[i].price.value() < #[trigger] b.asks[j].price.value() by {
        assert(book.bids[i].orders.len() > 0 && book.asks[j].orders.len() > 0);
        assert(book.bids[i].price.value() < book.asks[j].price.value());
    }
}

/// An order that rests at its limit `p` on its side, where every level of
/// the other side that still holds orders is at a price it does not accept,
/// keeps an uncrossed book uncrossed.
pub proof fn lemma_rest_keeps_uncrossed(book: OrderbookView, order: Order, p: Decimal, rested: Order, result: Seq<LimitView>)
    requires
        uncrossed(book),
        order.price == Some(p),
        forall|j: int|
            0 <= j < book.side(opposite(order.side)).len() && book.side(opposite(order.side))[j].orders.len() > 0
                ==> !price_acceptable(order, #[trigger] book.side(opposite(order.side))[j].price),
        inserted(book.side(order.side), order.side, p, rested, result),
    ensures
        uncrossed(book.with_side(order.side, result)),
{
    let levels = book.side(order.side);
    let b = book.with_side(order.side, result);
    // Each level of the result is an old level, or holds the order at a price of value `p`.
    let (a, joined) = if exists|a: int| 0 <= a < levels.len() && (#[trigger] levels[a]).price.value() == p.value() {
        let a = choose|a: int|
            0 <= a < levels.len() && (#[trigger] levels[a]).price.value() == p.value() && result == levels.update(
                a,
                LimitView { price: levels[a].price, orders: levels[a].orders.push(rested) },
            );
        (a, true)
    } else {
        let pos = choose|pos: int|
            0 <= pos <= levels.len() && result == levels.insert(pos, LimitView { price: p, orders: seq![rested] });
        (pos, false)
    };
    assert forall|i: int| 0 <= i < result.len() && i != a implies #[trigger] result[i] == (if joined || i < a {
        levels[i]
    } else {
        levels[i - 1]
    }) by {}
    assert(result[a].price.value() == p.value());
    assert forall|i: int, j: int|
        0 <= i < b.bids.len() && 0 <= j < b.asks.len() && b.bids[i].orders.len() > 0 && b.asks[j].orders.len()
            > 0 implies #[trigger] b.bids[i].price.value() < #[trigger] b.asks[j].price.value() by {
        match order.side {
            OrderSide::Bid => {
                assert(b.asks[j] == book.asks[j]);
                let opp = book.side(opposite(order.side));
                assert(opp == book.asks);
                assert(opp[j].orders.len() > 0);
                assert(!price_acceptable(order, opp[j].price));
                if i != a {
                    let k = if joined || i < a { i } else { i - 1 };
                    assert(b.bids[i] == book.bids[k]);
                }
            },
            OrderSide::Ask => {
                assert(b.bids[i] == book.bids[i]);
                let opp = book.side(opposite(order.side));
                assert(opp == book.bids);
                assert(opp[i].orders.len() > 0);
                assert(!price_acceptable(order, opp[i].price));
                if j != a {
                    let k = if joined || j < a { j } else { j - 1 };
                    assert(b.asks[j] == book.asks[k]);
                }
            },
        }
    }
}

/// Removing an order keeps an uncrossed book uncrossed.
pub proof fn lemma_remove_keeps_uncrossed(book: OrderbookView, after: OrderbookView, a: int, k: int)
    requires
        uncrossed(book),
        (0 <= a < book.bids.len() && 0 <= k < book.bids[a].orders.len() && after == OrderbookView {
            asks: book.asks,
            bids: remove_at(book.bids, a, k),
        }) || (0 <= a < book.asks.len() && 0 <= k < book.asks[a].orders.len() && after == OrderbookView {
            asks: remove_at(book.asks, a, k),
            bids: book.bids,
        }),
    ensures
        uncrossed(after),
{
    assert forall|i: int, j: int|
        0 <= i < after.bids.len() && 0 <= j < after.asks.len() && after.bids[i].orders.len() > 0
            && after.asks[j].orders.len() > 0 implies #[trigger] after.bids[i].price.value()
        < #[trigger] after.asks[j].price.value() by {
        assert(after.bids[i].price == book.bids[i].price);
        assert(after.asks[j].price == book.asks[j].price);
        assert(book.bids[i].orders.len() >= after.bids[i].orders.len());
        assert(book.asks[j].orders.len() >= after.asks[j].orders.len());
    }
}

} // verus!

verus! {

/// Two takers of one side and one limit accept the same leading levels.
proof fn lemma_accepted_same(levels: Seq<LimitView>, o1: Order, o2: Order)
    requires
        o1.side == o2.side,
        o1.price == o2.price,
    ensures
        accepted_len(levels, o1) == accepted_len(levels, o2),
    decreases levels.len(),
{
    if levels.len() > 0 {
        lemma_acceptable_same(o1, o2, levels[0].price);
        lemma_accepted_same(levels.subrange(1, levels.len() as int), o1, o2);
    }
}

/// Liquidity that covers an order at its limit also covers any smaller order
/// of the same side and limit.
pub proof fn lemma_smaller_order_covered(levels: Seq<LimitView>, o1: Order, o2: Order)
    requires
        o1.side == o2.side,
        o1.price == o2.price,
        o2.size.value() <= o1.size.value(),
        side_covers(accepted_levels(levels, o1), o1.size.value()),
    ensures
        side_covers(accepted_levels(levels, o2), o2.size.value()),
{
    lemma_accepted_same(levels, o1, o2);
    let p = accepted_levels(levels, o2);
    let (a, k) = choose|a: int, k: int|
        0 <= a < p.len() && 1 <= k <= p[a].orders.len() && #[trigger] prefix_volume(p, a, k) >= o1.size.value();
    assert(prefix_volume(p, a, k) >= o2.size.value());
}

} // verus!

verus! {

/// The taker as it stood before the fill at `i`: as it came, or as the
/// previous fill left it.
pub open spec fn taker_before(fills: Seq<Fill>, taker: Order, i: int) -> Order {
    if i == 0 {
        taker
    } else {
        fills[i - 1].1
    }
}

/// The fill records one execution between `maker` and the taker as it stood
/// (`before`): both grow by the same positive amount, and nothing else of
/// either changes.
pub open spec fn fill_follows(f: Fill, maker: Order, before: Order) -> bool {
    &&& f.0 == maker.with_filled(f.0.filled_size)
    &&& f.1 == before.with_filled(f.1.filled_size)
    &&& f.0.filled_size.value() > maker.filled_size.value()
    &&& f.1.filled_size.value() - before.filled_size.value() == f.0.filled_size.value() - maker.filled_size.value()
}

/// The fills record, one each and in order, executions of the taker with
/// the makers at the front of `makers`.
pub open spec fn fills_follow(fills: Seq<Fill>, makers: Seq<Order>, taker: Order) -> bool {
    &&& fills.len() <= makers.len()
    &&& forall|i: int| 0 <= i < fills.len() ==> fill_follows(#[trigger] fills[i], makers[i], taker_before(fills, taker, i))
}

proof fn lemma_queue_fills_follow(orders: Seq<Order>, taker: Order, price: Decimal)
    requires
        walk_exact(orders, taker),
        forall|i: int| 0 <= i < orders.len() ==> order_open(#[trigger] orders[i]),
    ensures
        fills_follow(match_queue(orders, taker, price).2, orders, taker),
        match_queue(orders, taker, price).2.len() == 0 ==> match_queue(orders, taker, price).1 == taker,
        match_queue(orders, taker, price).2.len() > 0 ==> match_queue(orders, taker, price).2.last().1
            == match_queue(orders, taker, price).1,
        !taker.is_filled_spec() && !match_queue(orders, taker, price).1.is_filled_spec() ==> match_queue(
            orders,
            taker,
            price,
        ).2.len() == orders.len(),
    decreases orders.len(),
{
    let q = match_queue(orders, taker, price);
    if orders.len() > 0 {
        let o = orders[0];
        let t2 = taker_after(o, taker);
        let tail = orders.subrange(1, orders.len() as int);
        lemma_meeting(o, taker);
        let f = meeting_fills(o, taker, price);
        assert(order_open(o));
        if !taker.is_filled_spec() {
            assert(f.len() == 1);
            assert(fill_follows(f[0], o, taker));
            if !t2.is_filled_spec() {
                assert forall|i: int| 0 <= i < tail.len() implies order_open(#[trigger] tail[i]) by {
                    assert(tail[i] == orders[i + 1]);
                }
                let rest = match_queue(tail, t2, price);
                lemma_queue_fills_follow(tail, t2, price);
                assert(q.2 == f + rest.2);
                assert forall|i: int| 0 <= i < q.2.len() implies fill_follows(#[trigger] q.2[i], orders[i], taker_before(q.2, taker, i)) by {
                    if i > 0 {
                        assert(q.2[i] == rest.2[i - 1]);
                        assert(orders[i] == tail[i - 1]);
                        if i > 1 {
                            assert(q.2[i - 1] == rest.2[i - 2]);
                        }
                        assert(taker_before(q.2, taker, i) == taker_before(rest.2, t2, i - 1));
                    }
                }
                if rest.2.len() > 0 {
                    assert(q.2.last() == rest.2.last());
                }
            }
        }
    }
}

/// Every execution of a walk of the book is recorded as a fill, and nothing
/// else is: the fills are, one each and in priority order, executions of the
/// taker (as the previous fill left it) with the makers from the front of the
/// side, each moving the same positive amount from the maker to the taker;
/// and the taker ends as the last fill left it.
pub proof fn lemma_fills_follow_walk(levels: Seq<LimitView>, taker: Order)
    requires
        levels_exact(levels, taker),
        levels_open(levels),
    ensures
        fills_follow(match_levels(levels, taker).2, flatten_levels(levels), taker),
        match_levels(levels, taker).2.len() == 0 ==> match_levels(levels, taker).1 == taker,
        match_levels(levels, taker).2.len() > 0 ==> match_levels(levels, taker).2.last().1 == match_levels(
            levels,
            taker,
        ).1,
    decreases levels.len(),
{
    let m = match_levels(levels, taker);
    let flat = flatten_levels(levels);
    if levels.len() > 0 && price_acceptable(taker, levels[0].price) {
        let l = match_level(levels[0], taker);
        let q = match_queue(levels[0].orders, taker, levels[0].price);
        let orders = levels[0].orders;
        let tail = levels.subrange(1, levels.len() as int);
        lemma_tail_open(levels);
        lemma_queue_fills_follow(orders, taker, levels[0].price);
        assert(flat == orders + flatten_levels(tail));
        if l.1.is_filled_spec() {
            assert forall|i: int| 0 <= i < m.2.len() implies fill_follows(#[trigger] m.2[i], flat[i], taker_before(m.2, taker, i)) by {
                assert(flat[i] == orders[i]);
            }
        } else {
            let rest = match_levels(tail, l.1);
            lemma_fills_follow_walk(tail, l.1);
            let ft = flatten_levels(tail);
            if taker.is_filled_spec() {
                assert(q.2.len() == 0) by {
                    if q.2.len() > 0 {
                        assert(fill_follows(q.2[0], orders[0], taker));
                    }
                }
                assert(l.1 == taker);
            }
            assert(q.2.len() == orders.len()) by {
                if !taker.is_filled_spec() {
                } else {
                    assert(l.1 == taker);
                }
            }
            assert(m.2 == q.2 + rest.2);
            let n0 = q.2.len() as int;
            assert forall|i: int| 0 <= i < m.2.len() implies fill_follows(#[trigger] m.2[i], flat[i], taker_before(m.2, taker, i)) by {
                if i < n0 {
                    assert(m.2[i] == q.2[i]);
                    assert(flat[i] == orders[i]);
                    if i > 0 {
                        assert(m.2[i - 1] == q.2[i - 1]);
                    }
                } else {
                    assert(m.2[i] == rest.2[i - n0]);
                    assert(flat[i] == ft[i - n0]);
                    if i > n0 {
                        assert(m.2[i - 1] == rest.2[i - n0 - 1]);
                    } else if n0 > 0 {
                        assert(m.2[i - 1] == q.2.last());
                    }
                    assert(taker_before(m.2, taker, i) == taker_before(rest.2, l.1, i - n0));
                }
            }
            if rest.2.len() > 0 {
                assert(m.2.last() == rest.2.last());
            } else if n0 > 0 {
                assert(m.2.last() == q.2.last());
            }
        }
    }
}

} // verus!
