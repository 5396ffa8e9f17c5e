# hft_orderbook

An order book for a single instrument, verified with Verus.

Prices are fixed-point integers (`PRICE_MULTIPLIER` units per whole price)
and so are quantities (`QUANTITY_MULTIPLIER` units per whole unit).

## Layout

- `src/ring_buffer.rs`: the ring buffer that queues the orders of one price
  level, with claim/publish sequencing in the style of the LMAX Disruptor.
- `src/order.rs`: orders, their ids, executions and the enumerations that
  describe them.
- `src/price_level.rs`: one price level: its queue, totals and id index.
- `src/side.rs`: a side of the book (bids or asks): levels kept in price order,
  best price, lookups, and the contents model (`DepthView`) the contracts
  speak of.
- `src/market_depth.rs`: market depth rows, fill plans for market impact, and
  liquidity data.
- `src/book.rs`: the order book: validation, adding and cancelling orders,
  best prices, top levels, market depth, market impact and summaries.
- `src/external.rs`, `src/util.rs`: the calls into chrono, uuid, fnv and
  `std::time`, each with the contract it is trusted to meet.
- `app/`: the command-line simulator, floating-point reports, random order
  generation and serializable copies of the library's data.
