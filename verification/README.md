# trade_engine

A trade matching engine for limit and market orders (GTC, IOC, FOK) with
price-time priority, verified with Verus.

- `src/matching_engine/decimal.rs`: fixed-point quantities; arithmetic and
  comparison are done by `rust_decimal`.
- `src/matching_engine/orderbook.rs`: price levels and the matching walk,
  specified by `match_levels`; cancellation; aggregated levels.
- `src/matching_engine/priority.rs`: what matching guarantees (price and time
  priority, limit prices, conservation of volume, fill or kill).
- `src/matching_engine/engine.rs`: one book per market, the trade history and
  the market data, tied together by `place_order`.
- `src/matching_engine/trade.rs`, `market_data.rs`: trade history, daily
  volume, snapshots and statistics.
- `src/matching_engine/validation.rs`, `errors.rs`, `types.rs`: orders,
  validation rules and errors.
- `app/main.rs`: an example session that prints to the terminal.

Every operation is owed on every input whose decimal arithmetic does not
overflow `Decimal::MAX`; the results are exact wherever no result drops a
digit, which quantities of at most 8 fractional digits and a magnitude of at
most 10^15 never do.  `MatchingEngine::has_room_for` tests the condition under
which `place_order` is owed and exact without further proof: the order and its
book in that range, no more than 100000 orders per book, and room in the
market's statistics.
