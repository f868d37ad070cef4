use trade_engine::matching_engine::market_data::OrderBookLevel;
use trade_engine::matching_engine::trade::DAY_NANOS;
use trade_engine::matching_engine::{
    Decimal, MarketDataAggregator, MatchingEngine, MatchingEngineError, Order, OrderSide, OrderType, OrderValidator,
    Orderbook, TradeHistory, TradingPair,
};

fn d(mantissa: i64, scale: u32) -> Decimal {
    Decimal::new(mantissa, scale)
}

fn btc_usd() -> TradingPair {
    TradingPair::new("BTC", "USD")
}

fn limit(id: &str, side: OrderSide, price: Decimal, size: Decimal, order_type: OrderType) -> Order {
    Order::new_limit(id.to_string(), btc_usd(), side, price, size, order_type)
}

fn market(id: &str, side: OrderSide, size: Decimal) -> Order {
    Order::new_market(id.to_string(), btc_usd(), side, size)
}

fn engine_with_market() -> MatchingEngine {
    let mut engine = MatchingEngine::new();
    engine.add_market(btc_usd());
    engine
}

#[test]
fn test_add_market_opens_once() {
    let mut engine = MatchingEngine::new();
    assert!(engine.get_order_book_snapshot(&btc_usd()).is_none());
    assert!(engine.add_market(btc_usd()));
    assert!(!engine.add_market(btc_usd()));
    let (bids, asks) = engine.get_order_book_snapshot(&btc_usd()).unwrap();
    assert!(bids.is_empty());
    assert!(asks.is_empty());
}

#[test]
fn test_price_time_priority() {
    let mut engine = engine_with_market();
    engine.place_order(limit("a1", OrderSide::Ask, d(101, 0), d(1, 0), OrderType::GTC)).unwrap();
    engine.place_order(limit("a2", OrderSide::Ask, d(100, 0), d(1, 0), OrderType::GTC)).unwrap();
    engine.place_order(limit("a3", OrderSide::Ask, d(100, 0), d(1, 0), OrderType::GTC)).unwrap();

    engine.place_order(market("m1", OrderSide::Bid, d(25, 1))).unwrap();

    let trades = engine.get_trades(&btc_usd());
    assert_eq!(trades.len(), 3);
    assert_eq!(trades[0].maker_order_id, "a2");
    assert_eq!(trades[1].maker_order_id, "a3");
    assert_eq!(trades[2].maker_order_id, "a1");
    assert_eq!(trades[0].price, d(100, 0));
    assert_eq!(trades[1].price, d(100, 0));
    assert_eq!(trades[2].price, d(101, 0));
    assert_eq!(trades[0].size, d(1, 0));
    assert_eq!(trades[1].size, d(1, 0));
    assert_eq!(trades[2].size, d(5, 1));
    for t in &trades {
        assert_eq!(t.taker_order_id, "m1");
    }

    // The emptied level at 100 stays in the book, with nothing in it.
    let (bids, asks) = engine.get_order_book_snapshot(&btc_usd()).unwrap();
    assert!(bids.is_empty());
    assert_eq!(asks.len(), 2);
    assert_eq!(asks[0], (d(100, 0), d(0, 0), 0));
    assert_eq!(asks[1], (d(101, 0), d(5, 1), 1));
}

#[test]
fn test_gtc_rests_remainder_at_its_limit() {
    let mut engine = engine_with_market();
    engine.place_order(limit("a1", OrderSide::Ask, d(100, 0), d(1, 0), OrderType::GTC)).unwrap();
    engine.place_order(limit("a2", OrderSide::Ask, d(102, 0), d(1, 0), OrderType::GTC)).unwrap();

    engine.place_order(limit("b1", OrderSide::Bid, d(101, 0), d(2, 0), OrderType::GTC)).unwrap();

    let trades = engine.get_trades(&btc_usd());
    assert_eq!(trades.len(), 1);
    assert_eq!(trades[0].price, d(100, 0));

    let (bids, asks) = engine.get_order_book_snapshot(&btc_usd()).unwrap();
    assert_eq!(bids, vec![(d(101, 0), d(1, 0), 1)]);
    assert_eq!(asks, vec![(d(100, 0), d(0, 0), 0), (d(102, 0), d(1, 0), 1)]);
}

#[test]
fn test_ioc_never_rests() {
    let mut engine = engine_with_market();
    engine.place_order(limit("a1", OrderSide::Ask, d(100, 0), d(1, 0), OrderType::GTC)).unwrap();
    engine.place_order(limit("b1", OrderSide::Bid, d(101, 0), d(2, 0), OrderType::IOC)).unwrap();

    assert_eq!(engine.get_trades(&btc_usd()).len(), 1);
    let (bids, _) = engine.get_order_book_snapshot(&btc_usd()).unwrap();
    assert!(bids.is_empty());
}

#[test]
fn test_fok_refused_changes_nothing() {
    let mut engine = engine_with_market();
    engine.place_order(limit("a1", OrderSide::Ask, d(100, 0), d(1, 0), OrderType::GTC)).unwrap();

    let r = engine.place_order(limit("b1", OrderSide::Bid, d(100, 0), d(2, 0), OrderType::FOK));
    assert!(matches!(r, Err(MatchingEngineError::InsufficientLiquidity)));

    assert!(engine.get_trades(&btc_usd()).is_empty());
    assert!(engine.get_market_stats(&btc_usd()).is_none());
    let (bids, asks) = engine.get_order_book_snapshot(&btc_usd()).unwrap();
    assert!(bids.is_empty());
    assert_eq!(asks, vec![(d(100, 0), d(1, 0), 1)]);
}

#[test]
fn test_fok_covered_is_filled_completely() {
    let mut engine = engine_with_market();
    engine.place_order(limit("a1", OrderSide::Ask, d(100, 0), d(1, 0), OrderType::GTC)).unwrap();
    engine.place_order(limit("a2", OrderSide::Ask, d(101, 0), d(1, 0), OrderType::GTC)).unwrap();

    engine.place_order(limit("b1", OrderSide::Bid, d(101, 0), d(2, 0), OrderType::FOK)).unwrap();

    let trades = engine.get_trades(&btc_usd());
    assert_eq!(trades.len(), 2);
    let (bids, asks) = engine.get_order_book_snapshot(&btc_usd()).unwrap();
    assert!(bids.is_empty());
    assert_eq!(asks, vec![(d(100, 0), d(0, 0), 0), (d(101, 0), d(0, 0), 0)]);
}

#[test]
fn test_fok_below_the_asks_is_refused() {
    // The side holds the size, but not at a price the order accepts.
    let mut engine = engine_with_market();
    engine.place_order(limit("a1", OrderSide::Ask, d(110, 0), d(5, 0), OrderType::GTC)).unwrap();
    let r = engine.place_order(limit("b1", OrderSide::Bid, d(100, 0), d(1, 0), OrderType::FOK));
    assert!(matches!(r, Err(MatchingEngineError::InsufficientLiquidity)));

    assert!(engine.get_trades(&btc_usd()).is_empty());
    assert!(engine.get_market_stats(&btc_usd()).is_none());
    let (bids, asks) = engine.get_order_book_snapshot(&btc_usd()).unwrap();
    assert!(bids.is_empty());
    assert_eq!(asks, vec![(d(110, 0), d(5, 0), 1)]);
}

#[test]
fn test_fok_counts_only_accepted_levels() {
    // 1 at 100 is accepted, 5 at 105 is not: a FOK bid at 101 for 2 is refused,
    // one for 1 is filled.
    let mut engine = engine_with_market();
    engine.place_order(limit("a1", OrderSide::Ask, d(100, 0), d(1, 0), OrderType::GTC)).unwrap();
    engine.place_order(limit("a2", OrderSide::Ask, d(105, 0), d(5, 0), OrderType::GTC)).unwrap();
    let r = engine.place_order(limit("b1", OrderSide::Bid, d(101, 0), d(2, 0), OrderType::FOK));
    assert!(matches!(r, Err(MatchingEngineError::InsufficientLiquidity)));
    engine.place_order(limit("b2", OrderSide::Bid, d(101, 0), d(1, 0), OrderType::FOK)).unwrap();
    let trades = engine.get_trades(&btc_usd());
    assert_eq!(trades.len(), 1);
    assert_eq!(trades[0].maker_order_id, "a1");
    assert_eq!(trades[0].taker_order_id, "b2");
}

#[test]
fn test_can_fill_at_limit() {
    let mut book = Orderbook::new();
    book.add_order(d(50000, 0), limit("a1", OrderSide::Ask, d(50000, 0), d(1, 0), OrderType::GTC)).unwrap();
    assert!(!book.can_fill_completely(&limit("b", OrderSide::Bid, d(100, 0), d(1, 0), OrderType::FOK)));
    assert!(book.can_fill_completely(&limit("b", OrderSide::Bid, d(50000, 0), d(1, 0), OrderType::FOK)));
    book.add_order(d(90, 0), limit("c1", OrderSide::Bid, d(90, 0), d(2, 0), OrderType::GTC)).unwrap();
    assert!(book.can_fill_completely(&limit("s", OrderSide::Ask, d(90, 0), d(2, 0), OrderType::FOK)));
    assert!(!book.can_fill_completely(&limit("s", OrderSide::Ask, d(91, 0), d(1, 0), OrderType::FOK)));
}

#[test]
fn test_cancel_undoes_add() {
    let mut engine = engine_with_market();
    engine.place_order(limit("b0", OrderSide::Bid, d(99, 0), d(2, 0), OrderType::GTC)).unwrap();
    engine.place_order(limit("b1", OrderSide::Bid, d(99, 0), d(1, 0), OrderType::GTC)).unwrap();
    engine.place_order(limit("b2", OrderSide::Bid, d(98, 0), d(1, 0), OrderType::GTC)).unwrap();

    engine.cancel_order(&btc_usd(), "b1".to_string()).unwrap();
    engine.cancel_order(&btc_usd(), "b2".to_string()).unwrap();

    let (bids, asks) = engine.get_order_book_snapshot(&btc_usd()).unwrap();
    assert!(asks.is_empty());
    assert_eq!(bids, vec![(d(99, 0), d(2, 0), 1), (d(98, 0), d(0, 0), 0)]);

    let again = engine.cancel_order(&btc_usd(), "b1".to_string());
    match again {
        Err(MatchingEngineError::OrderNotFound(id)) => assert_eq!(id, "b1"),
        other => panic!("unexpected result: {:?}", other),
    }
}

#[test]
fn test_unknown_market() {
    let mut engine = engine_with_market();
    let eth = TradingPair::new("ETH", "USD");
    let order = Order::new_limit("e1".to_string(), eth.clone(), OrderSide::Bid, d(10, 0), d(1, 0), OrderType::GTC);
    match engine.place_order(order) {
        Err(MatchingEngineError::OrderbookNotFound(p)) => assert_eq!(p, "ETH_USD"),
        other => panic!("unexpected result: {:?}", other),
    }
    match engine.cancel_order(&eth, "e1".to_string()) {
        Err(MatchingEngineError::OrderbookNotFound(p)) => assert_eq!(p, "ETH_USD"),
        other => panic!("unexpected result: {:?}", other),
    }
    assert!(engine.get_order_book_snapshot(&eth).is_none());
    assert!(engine.get_market_stats(&eth).is_none());
    assert!(engine.get_trades(&eth).is_empty());
}

#[test]
fn test_invalid_orders_are_refused() {
    let mut engine = engine_with_market();
    let r = engine.place_order(limit("z", OrderSide::Bid, d(100, 0), d(0, 0), OrderType::GTC));
    assert!(matches!(r, Err(MatchingEngineError::InvalidOrderSize)));
    let r = engine.place_order(limit("n", OrderSide::Bid, d(-1, 0), d(1, 0), OrderType::GTC));
    assert!(matches!(r, Err(MatchingEngineError::InvalidOrderPrice)));
    let r = engine.place_order(limit("p", OrderSide::Bid, d(0, 0), d(1, 0), OrderType::IOC));
    assert!(matches!(r, Err(MatchingEngineError::InvalidOrderPrice)));

    let mut gtc_market = market("g", OrderSide::Bid, d(1, 0));
    gtc_market.order_type = OrderType::GTC;
    match engine.place_order(gtc_market) {
        Err(MatchingEngineError::InvalidOrderType(msg)) => assert_eq!(msg, "GTC orders must be limit orders"),
        other => panic!("unexpected result: {:?}", other),
    }
    let mut fok_market = market("f", OrderSide::Bid, d(1, 0));
    fok_market.order_type = OrderType::FOK;
    match engine.place_order(fok_market) {
        Err(MatchingEngineError::InvalidOrderType(msg)) => assert_eq!(msg, "FOK orders must be limit orders"),
        other => panic!("unexpected result: {:?}", other),
    }
    let (bids, asks) = engine.get_order_book_snapshot(&btc_usd()).unwrap();
    assert!(bids.is_empty() && asks.is_empty());
}

#[test]
fn test_error_messages() {
    let cases = vec![
        (MatchingEngineError::OrderbookNotFound("BTC_USD".to_string()), "Orderbook not found for trading pair: BTC_USD"),
        (MatchingEngineError::InsufficientLiquidity, "Insufficient liquidity to fill order"),
        (MatchingEngineError::InvalidOrderSize, "Invalid order size"),
        (MatchingEngineError::InvalidOrderPrice, "Invalid order price"),
        (MatchingEngineError::InvalidOrderType("x".to_string()), "Invalid order type: x"),
        (MatchingEngineError::InvalidOrderCancellation("y".to_string()), "Invalid order cancellation: y"),
        (MatchingEngineError::OrderNotFound("o1".to_string()), "Order not found: o1"),
        (MatchingEngineError::OrderAlreadyFilled, "Order is already filled"),
        (MatchingEngineError::TradingPairNotFound("A_B".to_string()), "Trading pair not found: A_B"),
        (MatchingEngineError::InternalError("z".to_string()), "Internal error: z"),
    ];
    for (e, text) in cases {
        assert_eq!(e.message(), text);
    }
}

#[test]
fn test_validate_order_cancellation_errors() {
    let gtc = limit("o", OrderSide::Bid, d(1, 0), d(1, 0), OrderType::GTC);
    assert!(matches!(
        OrderValidator::validate_order_cancellation(&gtc, true),
        Err(MatchingEngineError::OrderAlreadyFilled)
    ));
    let ioc = market("i", OrderSide::Bid, d(1, 0));
    match OrderValidator::validate_order_cancellation(&ioc, false) {
        Err(MatchingEngineError::InvalidOrderCancellation(msg)) => assert_eq!(msg, "Only GTC orders can be cancelled"),
        other => panic!("unexpected result: {:?}", other),
    }
}

#[test]
fn test_trading_pair_text() {
    let p = btc_usd();
    assert_eq!(p.to_string(), "BTC_USD");
    assert!(p.same_as(&TradingPair::new("BTC", "USD")));
    assert!(!p.same_as(&TradingPair::new("BTC", "EUR")));
}

#[test]
fn test_decimal_arithmetic() {
    // Equal by value, whatever the scale.
    assert_eq!(d(10, 1), d(1, 0));
    assert!(d(10, 1).value_eq(&d(1, 0)));
    let sum = d(10, 1).add(d(5, 1));
    assert_eq!(sum, d(15, 1));
    assert_eq!(sum.mantissa(), 15);
    assert_eq!(sum.scale(), 1);
    let diff = d(3, 1).sub(d(1, 0));
    assert_eq!(diff, d(-7, 1));
    assert_eq!(diff.mantissa(), -7);
    assert!(d(1, 0).lt(&d(11, 1)));
    assert!(!d(11, 1).lt(&d(1, 0)));
    assert!(d(11, 1).gt(&d(1, 0)));
    assert!(d(1, 0).le(&d(100, 2)));
    assert!(d(1, 0).ge(&d(100, 2)));
    assert_eq!(d(2, 0).min(d(3, 0)), d(2, 0));
    assert_eq!(d(2, 0).max(d(3, 0)), d(3, 0));
    assert_eq!(Decimal::zero(), d(0, 5));
    let big = Decimal::from_i128_with_scale(123456789012345678901234567, 8);
    assert_eq!(big.mantissa(), 123456789012345678901234567);
    assert_eq!(big.scale(), 8);
}

#[test]
fn test_trades_get_fresh_ids() {
    let mut history = TradeHistory::new();
    let maker = limit("mk", OrderSide::Ask, d(100, 0), d(1, 0), OrderType::GTC);
    let taker = market("tk", OrderSide::Bid, d(1, 0));
    let t1 = history.record_trade(btc_usd(), d(100, 0), d(1, 0), &maker, &taker);
    let t2 = history.record_trade(btc_usd(), d(100, 0), d(1, 0), &maker, &taker);
    assert_eq!(t1.id.len(), 36);
    assert_eq!(t2.id.len(), 36);
    assert_ne!(t1.id, t2.id);
    assert!(t1.timestamp > 0);
    assert!(t2.timestamp >= t1.timestamp);
}

#[test]
fn test_last_price_and_daily_volume() {
    let mut history = TradeHistory::new();
    let pair = btc_usd();
    assert_eq!(history.get_last_price(&pair), None);
    let maker = limit("mk", OrderSide::Ask, d(100, 0), d(3, 0), OrderType::GTC);
    let taker = market("tk", OrderSide::Bid, d(3, 0));
    let t1 = history.record_trade(pair.clone(), d(100, 0), d(1, 0), &maker, &taker);
    history.record_trade(pair.clone(), d(101, 0), d(2, 0), &maker, &taker);
    assert_eq!(history.get_last_price(&pair), Some(d(101, 0)));
    assert_eq!(history.get_last_price(&TradingPair::new("ETH", "USD")), None);

    // A trade counts when it lies within one day from `now` onwards.
    assert_eq!(history.get_volume_24h_at(&pair, t1.timestamp), d(3, 0));
    assert_eq!(history.get_volume_24h_at(&pair, t1.timestamp + DAY_NANOS), d(0, 0));
    assert_eq!(history.get_volume_24h_at(&pair, 0), d(0, 0));
    assert_eq!(history.get_volume_24h_at(&TradingPair::new("ETH", "USD"), t1.timestamp), d(0, 0));
}

#[test]
fn test_snapshots_and_cleanup() {
    let mut data = MarketDataAggregator::new();
    let pair = btc_usd();
    assert!(data.get_order_book_snapshot(&pair).is_none());
    let level = OrderBookLevel { price: d(100, 0), size: d(2, 0), order_count: 1 };
    data.update_order_book_at(pair.clone(), vec![level], vec![], 1000);
    data.update_order_book_at(pair.clone(), vec![], vec![level, level], 2000);

    let latest = data.get_order_book_snapshot(&pair).unwrap();
    assert_eq!(latest.timestamp, 2000);
    assert!(latest.bids.is_empty());
    assert_eq!(latest.asks.len(), 2);
    assert_eq!(latest.asks[1].price, d(100, 0));

    // A snapshot taken exactly one day before goes; the newer one stays.
    data.cleanup_old_data_at(1000 + DAY_NANOS);
    assert_eq!(data.get_order_book_snapshot(&pair).unwrap().timestamp, 2000);
    data.cleanup_old_data_at(2000 + DAY_NANOS);
    assert!(data.get_order_book_snapshot(&pair).is_none());
}

#[test]
fn test_cleanup_drops_snapshots_from_after_now() {
    let mut data = MarketDataAggregator::new();
    data.update_order_book_at(btc_usd(), vec![], vec![], 5000);
    data.cleanup_old_data_at(4000);
    assert!(data.get_order_book_snapshot(&btc_usd()).is_none());
}

#[test]
fn test_stats_stay_consistent() {
    let mut data = MarketDataAggregator::new();
    let pair = btc_usd();
    data.update_market_stats_at(pair.clone(), None, d(0, 0), 0, 10);
    let s = data.get_market_stats(&pair).unwrap();
    assert_eq!(s.last_price, None);
    assert_eq!(s.high_24h, None);
    assert_eq!(s.low_24h, None);
    assert_eq!(s.timestamp, 10);

    data.update_market_stats_at(pair.clone(), Some(d(100, 0)), d(1, 0), 1, 20);
    data.update_market_stats_at(pair.clone(), Some(d(90, 0)), d(2, 0), 1, 30);
    data.update_market_stats_at(pair.clone(), Some(d(110, 0)), d(3, 0), 2, 40);
    data.update_market_stats_at(pair.clone(), None, d(1, 1), 0, 50);
    let s = data.get_market_stats(&pair).unwrap();
    assert_eq!(s.last_price, Some(d(110, 0)));
    assert_eq!(s.high_24h, Some(d(110, 0)));
    assert_eq!(s.low_24h, Some(d(90, 0)));
    assert_eq!(s.volume_24h, d(61, 1));
    assert_eq!(s.num_trades_24h, 4);
    assert_eq!(s.timestamp, 50);
}

#[test]
fn test_engine_stats_after_trades() {
    let mut engine = engine_with_market();
    engine.place_order(limit("a1", OrderSide::Ask, d(100, 0), d(1, 0), OrderType::GTC)).unwrap();
    engine.place_order(limit("a2", OrderSide::Ask, d(105, 0), d(1, 0), OrderType::GTC)).unwrap();
    assert!(engine.get_market_stats(&btc_usd()).is_none());

    engine.place_order(market("m1", OrderSide::Bid, d(15, 1))).unwrap();
    let s = engine.get_market_stats(&btc_usd()).unwrap();
    assert_eq!(s.last_price, Some(d(105, 0)));
    assert_eq!(s.high_24h, Some(d(105, 0)));
    assert_eq!(s.low_24h, Some(d(100, 0)));
    assert_eq!(s.num_trades_24h, 2);
    // Each trade is recorded with the smaller of the two filled sizes.
    assert_eq!(s.volume_24h, d(15, 1));
}

#[test]
fn test_matching_moves_volume_from_book_to_taker() {
    let mut book = Orderbook::new();
    book.add_order(d(100, 0), limit("a1", OrderSide::Ask, d(100, 0), d(1, 0), OrderType::GTC)).unwrap();
    book.add_order(d(100, 0), limit("a2", OrderSide::Ask, d(100, 0), d(2, 0), OrderType::GTC)).unwrap();
    let mut taker = market("m", OrderSide::Bid, d(15, 1));
    let fills = book.match_order(&mut taker).unwrap();
    assert_eq!(taker.filled_size, d(15, 1));
    assert_eq!(fills.len(), 2);
    assert_eq!(fills[0].0.id, "a1");
    assert_eq!(fills[0].0.filled_size, d(1, 0));
    assert_eq!(fills[0].1.filled_size, d(1, 0));
    assert_eq!(fills[1].0.id, "a2");
    assert_eq!(fills[1].0.filled_size, d(5, 1));
    assert_eq!(fills[1].1.filled_size, d(15, 1));
    for f in &fills {
        assert!(f.0.filled_size.le(&f.0.size));
        assert!(f.1.filled_size.le(&f.1.size));
    }
    let (_, asks) = book.get_aggregated_levels();
    // 3 were offered, 1.5 taken.
    assert_eq!(asks, vec![(d(100, 0), d(15, 1), 1)]);
}

#[test]
fn test_levels_in_priority_order() {
    let mut book = Orderbook::new();
    for (i, p) in [100i64, 102, 101].iter().enumerate() {
        let id = format!("a{}", i);
        book.add_order(d(*p, 0), limit(&id, OrderSide::Ask, d(*p, 0), d(1, 0), OrderType::GTC)).unwrap();
        let id = format!("b{}", i);
        book.add_order(d(*p - 10, 0), limit(&id, OrderSide::Bid, d(*p - 10, 0), d(1, 0), OrderType::GTC)).unwrap();
    }
    let asks: Vec<Decimal> = book.ask_limits().iter().map(|l| l.price).collect();
    let bids: Vec<Decimal> = book.bid_limits().iter().map(|l| l.price).collect();
    assert_eq!(asks, vec![d(100, 0), d(101, 0), d(102, 0)]);
    assert_eq!(bids, vec![d(92, 0), d(91, 0), d(90, 0)]);

    let empty = Orderbook::new();
    assert!(!empty.can_fill_completely(&market("m", OrderSide::Bid, d(1, 0))));
    assert!(book.can_fill_completely(&market("m", OrderSide::Bid, d(3, 0))));
    assert!(!book.can_fill_completely(&market("m", OrderSide::Bid, d(31, 1))));
}

#[test]
fn test_orderbook_cancel_searches_both_sides() {
    let mut book = Orderbook::new();
    book.add_order(d(100, 0), limit("x", OrderSide::Ask, d(100, 0), d(1, 0), OrderType::GTC)).unwrap();
    book.add_order(d(90, 0), limit("x", OrderSide::Bid, d(90, 0), d(1, 0), OrderType::GTC)).unwrap();
    // The bids are searched first.
    book.cancel_order("x").unwrap();
    let (bids, asks) = book.get_aggregated_levels();
    assert_eq!(bids, vec![(d(90, 0), d(0, 0), 0)]);
    assert_eq!(asks, vec![(d(100, 0), d(1, 0), 1)]);
    book.cancel_order("x").unwrap();
    let (_, asks) = book.get_aggregated_levels();
    assert_eq!(asks, vec![(d(100, 0), d(0, 0), 0)]);
    assert!(matches!(book.cancel_order("x"), Err(MatchingEngineError::OrderNotFound(_))));
}

#[test]
fn test_can_fill_walks_running_totals() {
    // An order filled beyond its size takes away from the running total.
    let mut book = Orderbook::new();
    book.add_order(d(100, 0), limit("a1", OrderSide::Ask, d(100, 0), d(1, 0), OrderType::GTC)).unwrap();
    let mut over = limit("a2", OrderSide::Ask, d(100, 0), d(1, 0), OrderType::GTC);
    over.filled_size = d(2, 0);
    book.add_order(d(100, 0), over).unwrap();
    book.add_order(d(101, 0), limit("a3", OrderSide::Ask, d(101, 0), d(2, 0), OrderType::GTC)).unwrap();

    // Running totals: 1, 0, 2.
    assert!(book.can_fill_completely(&market("m", OrderSide::Bid, d(1, 0))));
    assert!(book.can_fill_completely(&market("m", OrderSide::Bid, d(2, 0))));
    assert!(!book.can_fill_completely(&market("m", OrderSide::Bid, d(3, 0))));

    let (_, asks) = book.get_aggregated_levels();
    assert_eq!(asks, vec![(d(100, 0), d(0, 0), 2), (d(101, 0), d(2, 0), 1)]);
}

fn wide(mantissa: i128, scale: u32) -> Decimal {
    Decimal::from_i128_with_scale(mantissa, scale)
}

#[test]
fn test_matching_beyond_eight_digits_and_large_sizes() {
    // Twelve fractional digits and sizes of 10^19 are matched like any other.
    let mut book = Orderbook::new();
    let price = wide(1_000_000_000_001, 12);
    let big = wide(10_000_000_000_000_000_000, 0);
    book.add_order(price, limit("a1", OrderSide::Ask, price, big, OrderType::GTC)).unwrap();
    book.add_order(price, limit("a2", OrderSide::Ask, price, big, OrderType::GTC)).unwrap();

    let (_, asks) = book.get_aggregated_levels();
    assert_eq!(asks, vec![(price, wide(20_000_000_000_000_000_000, 0), 2)]);
    assert!(book.can_fill_completely(&market("m", OrderSide::Bid, wide(15_000_000_000_000_000_000, 0))));
    assert!(!book.can_fill_completely(&market("m", OrderSide::Bid, wide(20_000_000_000_000_000_001, 0))));

    let mut taker = market("m", OrderSide::Bid, wide(15_000_000_000_000_000_000_123_456_789, 9));
    let fills = book.match_order(&mut taker).unwrap();
    assert_eq!(fills.len(), 2);
    assert_eq!(taker.filled_size, wide(15_000_000_000_000_000_000_123_456_789, 9));
    assert!(taker.is_filled());
    let (_, asks) = book.get_aggregated_levels();
    assert_eq!(asks, vec![(price, wide(4_999_999_999_999_999_999_876_543_211, 9), 1)]);
}

#[test]
fn test_daily_volume_of_large_trades() {
    let mut history = TradeHistory::new();
    let big = wide(1_000_000_000_000_000, 0);
    let maker = limit("mk", OrderSide::Ask, d(1, 0), big, OrderType::GTC);
    let taker = market("tk", OrderSide::Bid, big);
    let t1 = history.record_trade(btc_usd(), d(1, 0), big, &maker, &taker);
    history.record_trade(btc_usd(), d(1, 0), wide(5, 12), &maker, &taker);
    assert_eq!(
        history.get_volume_24h_at(&btc_usd(), t1.timestamp),
        wide(1_000_000_000_000_000_000_000_000_005, 12)
    );
}

#[test]
fn test_engine_beyond_the_exact_range() {
    // Twelve fractional digits and sizes of 10^19: the engine matches them
    // like any others.
    let mut engine = engine_with_market();
    let price = wide(100_000_000_000_001, 12);
    let big = wide(10_000_000_000_000_000_000, 0);
    let ask = limit("a1", OrderSide::Ask, price, big, OrderType::GTC);
    assert!(!engine.has_room_for(&ask));
    engine.place_order(ask).unwrap();
    let bid = limit("b1", OrderSide::Bid, price, wide(4_000_000_000_000_000_000_000_000_001, 9), OrderType::GTC);
    engine.place_order(bid).unwrap();

    let trades = engine.get_trades(&btc_usd());
    assert_eq!(trades.len(), 1);
    assert_eq!(trades[0].price, price);
    assert_eq!(trades[0].size, wide(4_000_000_000_000_000_000_000_000_001, 9));
    let stats = engine.get_market_stats(&btc_usd()).unwrap();
    assert_eq!(stats.volume_24h, wide(4_000_000_000_000_000_000_000_000_001, 9));
    let (bids, asks) = engine.get_order_book_snapshot(&btc_usd()).unwrap();
    assert!(bids.is_empty());
    assert_eq!(asks, vec![(price, wide(5_999_999_999_999_999_999_999_999_999, 9), 1)]);
}

#[test]
fn test_has_room_for() {
    let mut engine = engine_with_market();
    let small = limit("s", OrderSide::Bid, d(100, 0), d(1, 0), OrderType::GTC);
    assert!(engine.has_room_for(&small));
    let fine = limit("f", OrderSide::Bid, d(100, 0), wide(1, 9), OrderType::GTC);
    assert!(!engine.has_room_for(&fine));
    let huge = limit("h", OrderSide::Bid, d(100, 0), wide(1_000_000_000_000_001, 0), OrderType::GTC);
    assert!(!engine.has_room_for(&huge));
    engine.place_order(small).unwrap();
    assert!(engine.has_room_for(&limit("t", OrderSide::Ask, d(101, 0), d(1, 0), OrderType::GTC)));
}

#[test]
fn test_book_stays_uncrossed() {
    let mut engine = engine_with_market();
    engine.place_order(limit("a1", OrderSide::Ask, d(101, 0), d(1, 0), OrderType::GTC)).unwrap();
    engine.place_order(limit("a2", OrderSide::Ask, d(103, 0), d(1, 0), OrderType::GTC)).unwrap();
    // A bid through the first ask rests above it once that ask is gone.
    engine.place_order(limit("b1", OrderSide::Bid, d(102, 0), d(2, 0), OrderType::GTC)).unwrap();
    let (bids, asks) = engine.get_order_book_snapshot(&btc_usd()).unwrap();
    let best_bid = bids.iter().filter(|l| l.2 > 0).map(|l| l.0).next().unwrap();
    let best_ask = asks.iter().filter(|l| l.2 > 0).map(|l| l.0).next().unwrap();
    assert_eq!(best_bid, d(102, 0));
    assert_eq!(best_ask, d(103, 0));
    assert!(best_bid.lt(&best_ask));
}

#[test]
fn test_default_is_empty() {
    let history = TradeHistory::default();
    assert!(history.get_trades_by_pair(&btc_usd()).is_empty());
    let data = MarketDataAggregator::default();
    assert!(data.get_market_stats(&btc_usd()).is_none());
}
