# matching_engine

An order matching engine whose core is verified with Verus.

* `src/decimal.rs` — `Decimal`, a number `mantissa / 10^scale` (96-bit
  mantissa, at most 28 digits). Comparison and subtraction are done by
  `rust_decimal`; their contracts are the trusted part of the library.
* `src/orders.rs` — orders (`Order`, `Side`, `TypeOp`).
* `src/trading_engine/orderbook.rs` — the order book of one pair: price
  levels on both sides, matching by price-time priority, cancelling, and the
  laws the book keeps (ordered levels, no crossed book, trades within the
  taker's limit and at resting prices, amounts conserved, levels beyond the
  limit untouched, no resting order moved, distinct ids kept distinct,
  cancelling undoes resting, cancelling twice is cancelling once).
* `src/trading_engine/matching_engine.rs` — one book per pair, the index of
  orders by id, `Trade`, and the listing of an account's resting orders.
* `src/trades_query.rs` — selecting trades by pair, stable sorting by price
  or amount (the stable sort is unique), paging (pages are slices of one
  ordering).
* `app/` — the HTTP service (actix-web), the background worker, JSON files
  and the WebSocket feed. It converts between the library's types and their
  JSON forms.

Endpoints: `POST /orders`, `DELETE /orders/{id}`,
`GET /orders/account/{account_id}`, `GET /trades?pair=&sort=&order=&skip=&limit=`,
`GET /ws`. The service listens on port 5050 and keeps its data in `./jsons/`.
