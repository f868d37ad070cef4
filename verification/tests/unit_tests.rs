use trade_engine::matching_engine::{
    Decimal, MarketDataAggregator, MatchingEngineError, Order, OrderSide, OrderType, OrderValidator,
    TradeHistory, TradingPair,
};

fn now_nanos() -> u128 {
    std::time::SystemTime::now()
        .duration_since(std::time::UNIX_EPOCH)
        .map(|d| d.as_nanos())
        .unwrap_or(0)
}

#[test]
fn test_market_stats_update() {
    let mut aggregator = MarketDataAggregator::new();
    let pair = TradingPair::new("BTC", "USD");

    // Update with first trade
    aggregator.update_market_stats(pair.clone(), Some(Decimal::new(50000, 0)), Decimal::new(10, 1), 1);
    let stats = aggregator.get_market_stats(&pair).unwrap();
    assert_eq!(stats.last_price, Some(Decimal::new(50000, 0)));
    assert_eq!(stats.volume_24h, Decimal::new(10, 1));
    assert_eq!(stats.high_24h, Some(Decimal::new(50000, 0)));
    assert_eq!(stats.low_24h, Some(Decimal::new(50000, 0)));
    assert_eq!(stats.num_trades_24h, 1);

    // Update with second trade at higher price
    aggregator.update_market_stats(pair.clone(), Some(Decimal::new(51000, 0)), Decimal::new(20, 1), 1);
    let stats = aggregator.get_market_stats(&pair).unwrap();
    assert_eq!(stats.last_price, Some(Decimal::new(51000, 0)));
    assert_eq!(stats.volume_24h, Decimal::new(30, 1));
    assert_eq!(stats.high_24h, Some(Decimal::new(51000, 0)));
    assert_eq!(stats.low_24h, Some(Decimal::new(50000, 0)));
    assert_eq!(stats.num_trades_24h, 2);
}

#[test]
fn test_record_trade() {
    let mut history = TradeHistory::new();
    let pair = TradingPair::new("BTC", "USD");

    let maker = Order::new_limit(
        "order1".to_string(),
        pair.clone(),
        OrderSide::Bid,
        Decimal::new(50000, 0),
        Decimal::new(10, 1),
        OrderType::GTC,
    );

    let taker = Order::new_market("order2".to_string(), pair.clone(), OrderSide::Ask, Decimal::new(10, 1));

    let trade = history.record_trade(pair.clone(), Decimal::new(50000, 0), Decimal::new(10, 1), &maker, &taker);

    assert_eq!(trade.price, Decimal::new(50000, 0));
    assert_eq!(trade.size, Decimal::new(10, 1));
    assert_eq!(trade.maker_order_id, "order1");
    assert_eq!(trade.taker_order_id, "order2");

    let trades = history.get_trades_by_pair(&pair);
    assert_eq!(trades.len(), 1);
    assert_eq!(trades[0].price, Decimal::new(50000, 0));
}

#[test]
fn test_validate_gtc_order() {
    let pair = TradingPair::new("BTC", "USD");

    // Valid GTC order
    let valid_order = Order::new_limit(
        "order1".to_string(),
        pair.clone(),
        OrderSide::Bid,
        Decimal::new(50000, 0),
        Decimal::new(10, 1),
        OrderType::GTC,
    );
    assert!(OrderValidator::validate_new_order(&valid_order).is_ok());

    // Invalid GTC order (market order)
    let invalid_order = Order {
        id: "order2".to_string(),
        trading_pair: pair,
        side: OrderSide::Bid,
        price: None,
        size: Decimal::new(10, 1),
        filled_size: Decimal::zero(),
        order_type: OrderType::GTC,
        timestamp: now_nanos(),
    };
    assert!(OrderValidator::validate_new_order(&invalid_order).is_err());
}

#[test]
fn test_validate_order_size() {
    let pair = TradingPair::new("BTC", "USD");

    // Invalid order size
    let invalid_order = Order::new_limit(
        "order1".to_string(),
        pair,
        OrderSide::Bid,
        Decimal::new(50000, 0),
        Decimal::new(0, 0),
        OrderType::GTC,
    );
    assert!(matches!(
        OrderValidator::validate_new_order(&invalid_order),
        Err(MatchingEngineError::InvalidOrderSize)
    ));
}

#[test]
fn test_validate_order_cancellation() {
    let pair = TradingPair::new("BTC", "USD");

    // Valid GTC order cancellation
    let gtc_order = Order::new_limit(
        "order1".to_string(),
        pair.clone(),
        OrderSide::Bid,
        Decimal::new(50000, 0),
        Decimal::new(10, 1),
        OrderType::GTC,
    );
    assert!(OrderValidator::validate_order_cancellation(&gtc_order, false).is_ok());

    // Invalid IOC order cancellation
    let ioc_order = Order::new_market("order2".to_string(), pair, OrderSide::Ask, Decimal::new(10, 1));
    assert!(OrderValidator::validate_order_cancellation(&ioc_order, false).is_err());
}
